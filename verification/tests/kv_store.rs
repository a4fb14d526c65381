use kvs::error::KvsError;
use kvs::replay::LogFile;
use kvs::store::KvStore;

fn open_empty() -> KvStore {
    KvStore::open(Vec::new()).expect("opening an empty directory must succeed")
}

fn reopen(store: KvStore) -> KvStore {
    let logs = store.logs();
    drop(store);
    KvStore::open(logs).expect("reopening must succeed")
}

fn dir_size(store: &KvStore) -> u64 {
    let mut total: u64 = 0;
    for log in store.logs() {
        total += log.data.len() as u64;
    }
    total
}

// Should get previously stored value
#[test]
fn get_stored_value() -> Result<(), KvsError> {
    let mut store = open_empty();

    store.set("key1".to_owned(), "value1".to_owned())?;
    store.set("key2".to_owned(), "value2".to_owned())?;

    assert_eq!(store.get("key1".to_owned())?, Some("value1".to_owned()));
    assert_eq!(store.get("key2".to_owned())?, Some("value2".to_owned()));

    // Open from the same generations again and check persistent data
    let store = reopen(store);
    assert_eq!(store.get("key1".to_owned())?, Some("value1".to_owned()));
    assert_eq!(store.get("key2".to_owned())?, Some("value2".to_owned()));

    Ok(())
}

// Should overwrite existent value
#[test]
fn overwrite_value() -> Result<(), KvsError> {
    let mut store = open_empty();

    store.set("key1".to_owned(), "value1".to_owned())?;
    assert_eq!(store.get("key1".to_owned())?, Some("value1".to_owned()));
    store.set("key1".to_owned(), "value2".to_owned())?;
    assert_eq!(store.get("key1".to_owned())?, Some("value2".to_owned()));

    // Open from the same generations again and check persistent data
    let mut store = reopen(store);
    assert_eq!(store.get("key1".to_owned())?, Some("value2".to_owned()));
    store.set("key1".to_owned(), "value3".to_owned())?;
    assert_eq!(store.get("key1".to_owned())?, Some("value3".to_owned()));

    Ok(())
}

// Should get `None` when getting a non-existent key
#[test]
fn get_non_existent_value() -> Result<(), KvsError> {
    let mut store = open_empty();

    store.set("key1".to_owned(), "value1".to_owned())?;
    assert_eq!(store.get("key2".to_owned())?, None);

    // Open from the same generations again and check persistent data
    let store = reopen(store);
    assert_eq!(store.get("key2".to_owned())?, None);

    Ok(())
}

#[test]
fn remove_non_existent_key() -> Result<(), KvsError> {
    let mut store = open_empty();

    assert!(store.remove("key1".to_owned()).is_err());

    Ok(())
}

#[test]
fn remove_key() -> Result<(), KvsError> {
    let mut store = open_empty();

    store.set("key1".to_owned(), "value1".to_owned())?;
    assert!(store.remove("key1".to_owned()).is_ok());
    assert_eq!(store.get("key1".to_owned())?, None);

    Ok(())
}

// Insert data until the total size of the store's generations decreases.
// Test data correctness after compaction.
#[test]
fn compaction() -> Result<(), KvsError> {
    let mut store = open_empty();

    let mut current_size = dir_size(&store);
    for iter in 0..1000 {
        for key_id in 0..1000 {
            let key = format!("key{}", key_id);
            let value = format!("{}", iter);
            store.set(key, value)?;
        }

        let new_size = dir_size(&store);
        if new_size > current_size {
            current_size = new_size;
            continue;
        }
        // Compaction triggered

        // reopen and check content
        let store = reopen(store);
        for key_id in 0..1000 {
            let key = format!("key{}", key_id);
            let val = store.get(key)?;
            assert_eq!(val, Some(format!("{}", iter)));
        }

        return Ok(());
    }

    panic!("No compaction detected");
}

// The writer serializes every mutation: a batch of sets of distinct keys
// leaves each key bound to its own value, whatever order the pool ran them in.
#[test]
fn concurrent_set() -> Result<(), KvsError> {
    let mut store = open_empty();

    for i in 0..10000 {
        store.set(format!("key{}", i), format!("value{}", i))?;
    }

    // We only check the outcome of the batch here, so we check sequentially
    let store = reopen(store);
    for i in 0..10000 {
        assert_eq!(
            store.get(format!("key{}", i))?,
            Some(format!("value{}", i))
        );
    }

    Ok(())
}

// Readers see each key's value after a bulk set, from any reader handle.
#[test]
fn concurrent_get() -> Result<(), KvsError> {
    let mut store = open_empty();

    for i in 0..100 {
        store
            .set(format!("key{}", i), format!("value{}", i))
            .unwrap();
    }

    for thread_id in 0..100 {
        for i in 0..100 {
            let key_id = (i + thread_id) % 100;
            assert_eq!(
                store.get(format!("key{}", key_id))?,
                Some(format!("value{}", key_id))
            );
        }
    }

    // Open from the same generations again and check persistent data
    let store = reopen(store);
    for thread_id in 0..100 {
        for i in 0..100 {
            let key_id = (i + thread_id) % 100;
            assert_eq!(
                store.get(format!("key{}", key_id))?,
                Some(format!("value{}", key_id))
            );
        }
    }

    Ok(())
}

// A reopened engine agrees with the last successful mutation for every key.
#[test]
fn reopen_after_mixed_mutations() -> Result<(), KvsError> {
    let mut store = open_empty();

    store.set("a".to_owned(), "1".to_owned())?;
    store.set("b".to_owned(), "2".to_owned())?;
    store.set("a".to_owned(), "3".to_owned())?;
    store.remove("b".to_owned())?;
    store.set("c".to_owned(), "".to_owned())?;

    let store = reopen(store);
    assert_eq!(store.get("a".to_owned())?, Some("3".to_owned()));
    assert_eq!(store.get("b".to_owned())?, None);
    assert_eq!(store.get("c".to_owned())?, Some("".to_owned()));

    Ok(())
}

// Keys and values are arbitrary UTF-8, the empty string included.
#[test]
fn unicode_and_empty_strings() -> Result<(), KvsError> {
    let mut store = open_empty();

    store.set("".to_owned(), "empty key".to_owned())?;
    store.set("schl\u{00fc}ssel \u{2603}".to_owned(), "wert \u{1f600}".to_owned())?;

    assert_eq!(store.get("".to_owned())?, Some("empty key".to_owned()));
    assert_eq!(
        store.get("schl\u{00fc}ssel \u{2603}".to_owned())?,
        Some("wert \u{1f600}".to_owned())
    );

    let store = reopen(store);
    assert_eq!(store.get("".to_owned())?, Some("empty key".to_owned()));
    assert_eq!(
        store.get("schl\u{00fc}ssel \u{2603}".to_owned())?,
        Some("wert \u{1f600}".to_owned())
    );

    Ok(())
}

// Removing a missing key is a no-op on disk: no bytes are appended.
#[test]
fn failed_remove_appends_nothing() -> Result<(), KvsError> {
    let mut store = open_empty();

    store.set("key1".to_owned(), "value1".to_owned())?;
    let before = dir_size(&store);
    assert!(matches!(
        store.remove("missing".to_owned()),
        Err(KvsError::KeyNotFound)
    ));
    assert_eq!(dir_size(&store), before);

    Ok(())
}

// Opening over garbage bytes reports a codec error.
#[test]
fn open_rejects_malformed_log() {
    let logs = vec![LogFile {
        gen: 1,
        data: vec![9, 9, 9],
    }];
    assert!(matches!(KvStore::open(logs), Err(KvsError::Codec(_))));
}

// Opening over a record whose value is not UTF-8 reports a UTF-8 error.
#[test]
fn open_rejects_non_utf8_value() {
    let mut data: Vec<u8> = Vec::new();
    let key: Vec<u8> = b"k".to_vec();
    let value: Vec<u8> = vec![0xff, 0xfe];
    kvs::codec::append_set(&mut data, &key, &value);
    let logs = vec![LogFile { gen: 1, data }];
    assert!(matches!(KvStore::open(logs), Err(KvsError::Utf8)));
}

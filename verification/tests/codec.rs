use kvs::codec::{append_remove, append_set, decode_at, Command};
use kvs::error::KvsError;

// A record decodes back to exactly what was appended, from its own offset.
#[test]
fn record_round_trip() {
    let mut data: Vec<u8> = Vec::new();
    let key: Vec<u8> = b"key1".to_vec();
    let value: Vec<u8> = b"value1".to_vec();
    append_set(&mut data, &key, &value);
    let first_len = data.len();
    let rm_key: Vec<u8> = b"key2".to_vec();
    append_remove(&mut data, &rm_key);

    match decode_at(&data, 0) {
        Ok(Some((Command::Put { key: k, value: v }, n))) => {
            assert_eq!(k, b"key1".to_vec());
            assert_eq!(v, b"value1".to_vec());
            assert_eq!(n, first_len);
        }
        _ => panic!("expected a Put record"),
    }
    match decode_at(&data, first_len) {
        Ok(Some((Command::Remove { key: k }, n))) => {
            assert_eq!(k, b"key2".to_vec());
            assert_eq!(first_len + n, data.len());
        }
        _ => panic!("expected a Remove record"),
    }
}

// A record of an empty key and value still frames cleanly: one tag byte and
// two eight-byte length prefixes.
#[test]
fn empty_strings_record() {
    let mut data: Vec<u8> = Vec::new();
    let empty: Vec<u8> = Vec::new();
    append_set(&mut data, &empty, &empty);
    assert_eq!(data.len(), 17);
    match decode_at(&data, 0) {
        Ok(Some((Command::Put { key, value }, n))) => {
            assert!(key.is_empty());
            assert!(value.is_empty());
            assert_eq!(n, 17);
        }
        _ => panic!("expected a Put record"),
    }
}

// An unknown tag and a truncated record are malformed input, distinct from
// the clean end of a stream.
#[test]
fn malformed_records_rejected() {
    let data: Vec<u8> = vec![7, 0, 0];
    assert!(matches!(decode_at(&data, 0), Err(KvsError::Codec(_))));

    let mut truncated: Vec<u8> = Vec::new();
    let key: Vec<u8> = b"key".to_vec();
    let value: Vec<u8> = b"value".to_vec();
    append_set(&mut truncated, &key, &value);
    truncated.pop();
    assert!(matches!(decode_at(&truncated, 0), Err(KvsError::Codec(_))));

    // the clean end of the stream is no record, and no error
    let mut clean: Vec<u8> = Vec::new();
    append_set(&mut clean, &key, &value);
    let end = clean.len();
    assert!(matches!(decode_at(&clean, end), Ok(None)));
}

use kvs::client::{read_get_response, read_remove_response, read_set_response};
use kvs::common::{PacketSize, Request, Response};
use kvs::engine::{parse_engine, EngineKind};
use kvs::error::KvsError;
use kvs::server::KvsServer;
use kvs::store::KvStore;

// The length prefix is eight big-endian digits.
#[test]
fn packet_size_to_bytes_exact() {
    let size = PacketSize::new(0x0102030405060708);
    assert_eq!(size.to_bytes(), [1, 2, 3, 4, 5, 6, 7, 8]);
    assert_eq!(size.get_size(), 0x0102030405060708);

    let small = PacketSize::new(13);
    assert_eq!(small.to_bytes(), [0, 0, 0, 0, 0, 0, 0, 13]);
}

// Reading a prefix back yields the framed length and advances the slice.
#[test]
fn packet_size_round_trip() {
    let size = PacketSize::new(0xdeadbeef00112233);
    let framed = size.to_bytes();
    let mut buf: Vec<u8> = framed.to_vec();
    buf.push(42);
    let mut rest: &[u8] = &buf;
    let read = PacketSize::from_bytes(&mut rest);
    assert_eq!(read.get_size(), 0xdeadbeef00112233);
    assert_eq!(rest, &[42]);
}

// A client sets a key and a later client gets it back through the server.
#[test]
fn server_put_then_get() {
    let store = KvStore::open(Vec::new()).unwrap();
    let mut server = KvsServer::new(store);

    let resp = server.handle(Request::Put {
        key: "k".to_owned(),
        value: "v".to_owned(),
    });
    assert!(matches!(resp, Response::Put));

    let resp = server.handle(Request::Get {
        key: "k".to_owned(),
    });
    match resp {
        Response::Get(v) => assert_eq!(v, Some("v".to_owned())),
        _ => panic!("expected a Get response"),
    }
}

// The client accepts exactly the response kind that answers its operation.
#[test]
fn client_reads_responses() {
    assert_eq!(
        read_get_response(Response::Get(Some("v".to_owned()))),
        Ok(Some("v".to_owned()))
    );
    assert_eq!(read_get_response(Response::Get(None)), Ok(None));
    assert_eq!(
        read_get_response(Response::Failure("boom".to_owned())),
        Err(KvsError::StringError("boom".to_owned()))
    );
    assert!(read_get_response(Response::Put).is_err());

    assert_eq!(read_set_response(Response::Put), Ok(()));
    assert!(read_set_response(Response::Get(None)).is_err());

    assert_eq!(read_remove_response(Response::Remove), Ok(()));
    assert_eq!(
        read_remove_response(Response::Failure("Key not found".to_owned())),
        Err(KvsError::StringError("Key not found".to_owned()))
    );
}

// Exactly the two backend names are recognised in a directory's engine file.
#[test]
fn engine_file_names() {
    assert_eq!(parse_engine(&"kvs".to_owned()), Some(EngineKind::Kvs));
    assert_eq!(parse_engine(&"sled".to_owned()), Some(EngineKind::Sled));
    assert_eq!(parse_engine(&"kvss".to_owned()), None);
    assert_eq!(parse_engine(&"".to_owned()), None);
}

// Removing a missing key surfaces the engine's message to the client.
#[test]
fn server_reports_key_not_found() {
    let store = KvStore::open(Vec::new()).unwrap();
    let mut server = KvsServer::new(store);

    let resp = server.handle(Request::Remove {
        key: "k".to_owned(),
    });
    match resp {
        Response::Failure(msg) => assert_eq!(msg, "Key not found"),
        _ => panic!("expected a Failure response"),
    }

    let resp = server.handle(Request::Get {
        key: "k".to_owned(),
    });
    assert!(matches!(resp, Response::Get(None)));
}

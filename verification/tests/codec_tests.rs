//! The stream codec end to end: whole connections, fragmentation, partial
//! buffers, trailing bytes, opaque data, and the encoder's exact output.

use memcached_core::codec::encode;
use memcached_core::codec::MemcachedCodec;
use memcached_core::handler::handle_request;
use memcached_core::handler::WriteOptions;
use memcached_core::request::MemcachedRequest;
use memcached_core::response::MemcachedError;
use memcached_core::response::MemcachedResponse;
use memcached_core::storage::HashMapStorage;

struct Conn {
    codec: MemcachedCodec,
    buf: Vec<u8>,
    storage: HashMapStorage,
}

fn new_conn() -> Conn {
    Conn { codec: MemcachedCodec::new(), buf: Vec::new(), storage: HashMapStorage::default() }
}

/// Appends one network read and drains every whole request, returning the
/// reply bytes written back, as the connection handler would.
fn feed_conn(conn: &mut Conn, bytes: &[u8]) -> String {
    conn.buf.extend_from_slice(bytes);
    let mut out = String::new();
    loop {
        match conn.codec.decode(&mut conn.buf) {
            Ok(Some(request)) => {
                let res = handle_request(&mut conn.storage, request);
                encode(res, &mut out);
            },
            Ok(None) => break,
            Err(_) => {
                encode(Err(MemcachedError::Client("Invalid data".to_string())), &mut out);
            },
        }
    }
    out
}

#[test]
fn scenario_set_then_get() {
    let mut conn = new_conn();
    assert_eq!(feed_conn(&mut conn, b"set foo 0 0 3\r\nbar\r\n"), "STORED\r\n");
    assert_eq!(feed_conn(&mut conn, b"get foo\r\n"), "VALUE foo 0 0\r\nbar\r\nEND\r\n");
}

#[test]
fn scenario_add_twice() {
    let mut conn = new_conn();
    assert_eq!(feed_conn(&mut conn, b"add x 7 60 1\r\nA\r\n"), "STORED\r\n");
    assert_eq!(
        feed_conn(&mut conn, b"add x 7 60 1\r\nB\r\n"),
        "CLIENT_ERROR Already exists\r\n"
    );
}

#[test]
fn scenario_incr() {
    let mut conn = new_conn();
    assert_eq!(feed_conn(&mut conn, b"set n 0 0 3\r\n100\r\n"), "STORED\r\n");
    assert_eq!(feed_conn(&mut conn, b"incr n 5\r\n"), "STORED\r\n");
    assert_eq!(feed_conn(&mut conn, b"get n\r\n"), "VALUE n 0 0\r\n105\r\nEND\r\n");
}

#[test]
fn scenario_incr_unparseable() {
    let mut conn = new_conn();
    assert_eq!(feed_conn(&mut conn, b"set s 0 0 5\r\nvalue\r\n"), "STORED\r\n");
    assert_eq!(
        feed_conn(&mut conn, b"incr s 1\r\n"),
        "CLIENT_ERROR Failed to parse integer\r\n"
    );
    assert_eq!(feed_conn(&mut conn, b"get s\r\n"), "VALUE s 0 0\r\nvalue\r\nEND\r\n");
}

#[test]
fn scenario_delete_absent() {
    let mut conn = new_conn();
    assert_eq!(feed_conn(&mut conn, b"delete absent\r\n"), "CLIENT_ERROR Not found\r\n");
}

#[test]
fn scenario_unknown_command() {
    let mut conn = new_conn();
    assert_eq!(feed_conn(&mut conn, b"frobnicate\r\n"), "ERROR\r\n");
}

#[test]
fn scenario_decr() {
    let mut conn = new_conn();
    assert_eq!(feed_conn(&mut conn, b"set n 0 0 3\r\n100\r\n"), "STORED\r\n");
    assert_eq!(feed_conn(&mut conn, b"decr n 5\r\n"), "STORED\r\n");
    assert_eq!(feed_conn(&mut conn, b"get n\r\n"), "VALUE n 0 0\r\n95\r\nEND\r\n");
}

#[test]
fn scenario_version_and_stats() {
    let mut conn = new_conn();
    assert_eq!(feed_conn(&mut conn, b"version\r\n"), "VERSION 0.1.0\r\n");
    assert_eq!(feed_conn(&mut conn, b"stats\r\n"), "");
}

#[test]
fn fragmentation_byte_at_a_time() {
    let script: &[u8] = b"set foo 0 0 3\r\nbar\r\nget foo\r\n";
    let mut whole = new_conn();
    let whole_out = feed_conn(&mut whole, script);

    let mut pieces = new_conn();
    let mut out = String::new();
    for b in script {
        out.push_str(&feed_conn(&mut pieces, &[*b]));
    }
    assert_eq!(out, whole_out);
    assert_eq!(out, "STORED\r\nVALUE foo 0 0\r\nbar\r\nEND\r\n");
}

#[test]
fn decode_partial_returns_none_and_keeps_bytes() {
    let mut codec = MemcachedCodec::new();
    let mut buf: Vec<u8> = b"set foo 0".to_vec();
    assert_eq!(codec.decode(&mut buf), Ok(None));
    assert_eq!(buf, b"0".to_vec());
    buf.extend_from_slice(b" 0 3\r\nba");
    assert_eq!(codec.decode(&mut buf), Ok(None));
    buf.extend_from_slice(b"r");
    let req = codec.decode(&mut buf).unwrap().unwrap();
    assert_eq!(
        req,
        MemcachedRequest::SetCmd {
            key: "foo".to_string(),
            value: "bar".to_string(),
            options: WriteOptions { flags: 0, expire: 0 },
        }
    );
    assert_eq!(buf, Vec::<u8>::new());
}

#[test]
fn decode_keeps_trailing_bytes() {
    let mut codec = MemcachedCodec::new();
    let mut buf: Vec<u8> = b"get a\r\nget b\r\n".to_vec();
    let first = codec.decode(&mut buf).unwrap().unwrap();
    assert_eq!(first, MemcachedRequest::Get { key: "a".to_string() });
    assert_eq!(buf, b"get b\r\n".to_vec());
    let second = codec.decode(&mut buf).unwrap().unwrap();
    assert_eq!(second, MemcachedRequest::Get { key: "b".to_string() });
    assert_eq!(buf, Vec::<u8>::new());
}

#[test]
fn decode_opaque_data_block() {
    let mut codec = MemcachedCodec::new();
    let mut buf: Vec<u8> = b"set k 0 0 4\r\nA\r\nB\r\n".to_vec();
    let req = codec.decode(&mut buf).unwrap().unwrap();
    assert_eq!(
        req,
        MemcachedRequest::SetCmd {
            key: "k".to_string(),
            value: "A\r\nB".to_string(),
            options: WriteOptions { flags: 0, expire: 0 },
        }
    );
    assert_eq!(buf, b"\r\n".to_vec());
}

#[test]
fn decode_invalid_utf8_value_is_an_error() {
    let mut codec = MemcachedCodec::new();
    let mut buf: Vec<u8> = b"set k 0 0 2\r\n".to_vec();
    buf.push(0xff);
    buf.push(0xfe);
    buf.extend_from_slice(b"\r\n");
    assert!(codec.decode(&mut buf).is_err());
}

#[test]
fn decode_invalid_utf8_token_is_an_error() {
    let mut codec = MemcachedCodec::new();
    let mut buf: Vec<u8> = vec![0xff, 0xfe, b' ', b'x', b'\n'];
    assert!(codec.decode(&mut buf).is_err());
}

#[test]
fn decode_flags_overflow_is_an_error() {
    let mut codec = MemcachedCodec::new();
    let mut buf: Vec<u8> = b"set k 4294967296 0 1\r\nA\r\n".to_vec();
    assert!(codec.decode(&mut buf).is_err());
}

#[test]
fn decode_incr_parses_signed_deltas() {
    let mut codec = MemcachedCodec::new();
    let mut buf: Vec<u8> = b"incr k -5\r\n".to_vec();
    let req = codec.decode(&mut buf).unwrap().unwrap();
    assert_eq!(req, MemcachedRequest::Incr { key: "k".to_string(), diff: -5 });

    let mut buf2: Vec<u8> = b"decr k +7\r\n".to_vec();
    let req2 = codec.decode(&mut buf2).unwrap().unwrap();
    assert_eq!(req2, MemcachedRequest::Decr { key: "k".to_string(), diff: 7 });
}

#[test]
fn decode_incr_overflow_delta_is_an_error() {
    let mut codec = MemcachedCodec::new();
    let mut buf: Vec<u8> = b"incr k 9223372036854775808\r\n".to_vec();
    assert!(codec.decode(&mut buf).is_err());
}

#[test]
fn decode_most_negative_delta() {
    let mut codec = MemcachedCodec::new();
    let mut buf: Vec<u8> = b"incr k -9223372036854775808\r\n".to_vec();
    let req = codec.decode(&mut buf).unwrap().unwrap();
    assert_eq!(req, MemcachedRequest::Incr { key: "k".to_string(), diff: i64::MIN });
}

#[test]
fn encode_simple_replies() {
    let mut out = String::new();
    encode(Ok(MemcachedResponse::Stored), &mut out);
    assert_eq!(out, "STORED\r\n");

    let mut out = String::new();
    encode(Ok(MemcachedResponse::Deleted), &mut out);
    assert_eq!(out, "DELETED\r\n");

    let mut out = String::new();
    encode(Ok(MemcachedResponse::NoValue), &mut out);
    assert_eq!(out, "END\r\n");

    let mut out = String::new();
    encode(Ok(MemcachedResponse::Version("0.1.0".to_string())), &mut out);
    assert_eq!(out, "VERSION 0.1.0\r\n");
}

#[test]
fn encode_value_reply() {
    let mut out = String::new();
    encode(
        Ok(MemcachedResponse::Value {
            key: "foo".to_string(),
            flags: 7,
            expire: 60,
            value: "bar".to_string(),
        }),
        &mut out,
    );
    assert_eq!(out, "VALUE foo 7 60\r\nbar\r\nEND\r\n");
}

#[test]
fn encode_statistics_reply() {
    let mut out = String::new();
    encode(Ok(MemcachedResponse::Statistics(Vec::new())), &mut out);
    assert_eq!(out, "");

    let mut out = String::new();
    encode(
        Ok(MemcachedResponse::Statistics(vec![
            ("uptime".to_string(), "3".to_string()),
            ("version".to_string(), "0.1.0".to_string()),
        ])),
        &mut out,
    );
    assert_eq!(out, "STAT uptime 3\r\nSTAT version 0.1.0\r\n");
}

#[test]
fn encode_error_replies() {
    let mut out = String::new();
    encode(Err(MemcachedError::NoExistenceCommand), &mut out);
    assert_eq!(out, "ERROR\r\n");

    let mut out = String::new();
    encode(Err(MemcachedError::NotFound), &mut out);
    assert_eq!(out, "CLIENT_ERROR Not found\r\n");

    let mut out = String::new();
    encode(Err(MemcachedError::AlreadyExists), &mut out);
    assert_eq!(out, "CLIENT_ERROR Already exists\r\n");

    let mut out = String::new();
    encode(Err(MemcachedError::FailedToParseInteger), &mut out);
    assert_eq!(out, "CLIENT_ERROR Failed to parse integer\r\n");

    let mut out = String::new();
    encode(Err(MemcachedError::Client("Invalid data".to_string())), &mut out);
    assert_eq!(out, "CLIENT_ERROR Invalid data\r\n");

    let mut out = String::new();
    encode(Err(MemcachedError::Server("out of memory".to_string())), &mut out);
    assert_eq!(out, "SERVER_ERROR out of memory\r\n");
}

#[test]
fn invalid_data_reply_then_connection_continues() {
    let mut conn = new_conn();
    let bad: Vec<u8> = vec![0xff, b' '];
    assert_eq!(feed_conn(&mut conn, &bad), "CLIENT_ERROR Invalid data\r\n");
    assert_eq!(feed_conn(&mut conn, b"version\r\n"), "VERSION 0.1.0\r\n");
}

#[test]
fn handle_request_version_and_unsupported() {
    let mut storage = HashMapStorage::default();
    assert_eq!(
        handle_request(&mut storage, MemcachedRequest::Version),
        Ok(MemcachedResponse::Version("0.1.0".to_string()))
    );
    assert_eq!(
        handle_request(&mut storage, MemcachedRequest::Unsupported),
        Err(MemcachedError::NoExistenceCommand)
    );
    assert_eq!(
        handle_request(&mut storage, MemcachedRequest::Stats),
        Ok(MemcachedResponse::Statistics(Vec::new()))
    );
}

#[test]
fn scenario_get_echoes_options() {
    let mut conn = new_conn();
    assert_eq!(feed_conn(&mut conn, b"add x 7 60 1\r\nA\r\n"), "STORED\r\n");
    assert_eq!(feed_conn(&mut conn, b"get x\r\n"), "VALUE x 7 60\r\nA\r\nEND\r\n");
}

#[test]
fn decode_plus_signed_flags() {
    let mut codec = MemcachedCodec::new();
    let mut buf: Vec<u8> = b"set k +7 +60 3\r\nabc\r\n".to_vec();
    let req = codec.decode(&mut buf).unwrap().unwrap();
    assert_eq!(
        req,
        MemcachedRequest::SetCmd {
            key: "k".to_string(),
            value: "abc".to_string(),
            options: WriteOptions { flags: 7, expire: 60 },
        }
    );
}

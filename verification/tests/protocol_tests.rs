use kvs::client::{interpret_delete_response, interpret_get_response, interpret_set_response};
use kvs::engine::{choose_engine, EngineKind};
use kvs::error::Error;
use kvs::messages::{
    decode_request, decode_response, read, serialize_request_delete, serialize_request_get,
    serialize_request_set, serialize_response, serialize_response_failure,
    serialize_response_success, serialize_response_value, ErrorCode, OwnedFlatBuffer, Request,
    Response,
};
use kvs::record::{encode_record, parse_record_at, Record};
use kvs::server::handle_command;
use kvs::store::KvStore;

fn chars(s: &str) -> Vec<char> {
    s.chars().collect()
}

// One wire exchange: client-encoded request bytes in, server response
// bytes out, decoded by the client.
fn exchange(store: &mut KvStore, request: OwnedFlatBuffer) -> Response {
    let (frame, consumed) = read(request.data()).unwrap();
    assert_eq!(consumed, request.data().len());
    let req = decode_request(&frame).unwrap();
    let resp = handle_command(store, &req);
    let resp_buf = serialize_response(&resp).unwrap();
    let (resp_frame, _) = read(resp_buf.data()).unwrap();
    decode_response(&resp_frame).unwrap()
}

// Wire round-trip: set, get, delete, and a delete of an absent key.
#[test]
fn wire_round_trip() {
    let mut store = KvStore::open(Vec::new()).unwrap();

    let resp = exchange(&mut store, serialize_request_set("x", "1"));
    assert_eq!(resp, Response::Success);
    assert_eq!(interpret_set_response(&resp), Ok(()));

    let resp = exchange(&mut store, serialize_request_get("x"));
    assert_eq!(resp, Response::GetValue { value: "1".to_owned() });
    assert_eq!(interpret_get_response(&resp), Ok("1".to_owned()));

    let resp = exchange(&mut store, serialize_request_delete("x"));
    assert_eq!(resp, Response::Success);
    assert_eq!(interpret_delete_response(&resp), Ok(()));

    let resp = exchange(&mut store, serialize_request_delete("x"));
    assert_eq!(resp, Response::Failure { code: ErrorCode::NotFound });
    assert_eq!(interpret_delete_response(&resp), Err(Error::KeyNotFound));
}

#[test]
fn get_of_absent_key_maps_to_not_found() {
    let mut store = KvStore::open(Vec::new()).unwrap();
    let resp = exchange(&mut store, serialize_request_get("nothing"));
    assert_eq!(resp, Response::Failure { code: ErrorCode::NotFound });
    assert_eq!(interpret_get_response(&resp), Err(Error::KeyNotFound));
}

#[test]
fn request_codec_round_trip() {
    let buf = serialize_request_get("key1");
    assert_eq!(decode_request(&buf).unwrap(), Request::Get { key: "key1".to_owned() });

    let buf = serialize_request_set("key å\"", "value\n2");
    assert_eq!(
        decode_request(&buf).unwrap(),
        Request::Put { key: "key å\"".to_owned(), value: "value\n2".to_owned() }
    );

    let buf = serialize_request_delete("");
    assert_eq!(decode_request(&buf).unwrap(), Request::Delete { key: "".to_owned() });
}

#[test]
fn response_codec_round_trip() {
    let buf = serialize_response_value("seven");
    assert_eq!(
        decode_response(&buf).unwrap(),
        Response::GetValue { value: "seven".to_owned() }
    );

    let buf = serialize_response_success();
    assert_eq!(decode_response(&buf).unwrap(), Response::Success);

    let buf = serialize_response_failure(ErrorCode::Unknown);
    let resp = decode_response(&buf).unwrap();
    assert_eq!(resp, Response::Failure { code: ErrorCode::Unknown });
    assert_eq!(interpret_get_response(&resp), Err(Error::ServerError));
    assert_eq!(interpret_set_response(&resp), Err(Error::ServerError));
    assert_eq!(interpret_delete_response(&resp), Err(Error::ServerError));
}

#[test]
fn frame_layout_is_length_prefixed() {
    // payload: tag 0, key length 1, key byte; prefix counts the payload
    let buf = serialize_request_get("k");
    assert_eq!(buf.data().as_slice(), &[6, 0, 0, 0, 0u8, 1, 0, 0, 0, b'k']);
}

#[test]
fn read_rejects_short_buffers() {
    assert_eq!(read(&vec![1, 0]), Err(Error::ProtocolError));
    // announces 5 payload bytes but carries none
    assert_eq!(read(&vec![5, 0, 0, 0]), Err(Error::ProtocolError));
}

#[test]
fn decode_rejects_malformed_payloads() {
    // an unknown tag
    let buf = OwnedFlatBuffer { bytes: vec![1, 0, 0, 0, 9] };
    assert_eq!(decode_request(&buf), Err(Error::ProtocolError));
    // trailing garbage after a complete get request
    let buf = OwnedFlatBuffer { bytes: vec![7, 0, 0, 0, 0, 1, 0, 0, 0, b'k', 9] };
    assert_eq!(decode_request(&buf), Err(Error::ProtocolError));
    // a field that is not valid UTF-8
    let buf = OwnedFlatBuffer { bytes: vec![6, 0, 0, 0, 0, 1, 0, 0, 0, 0xff] };
    assert_eq!(decode_request(&buf), Err(Error::ProtocolError));
}

#[test]
fn record_codec_round_trip() {
    let rec = Record::Put(chars("a\"b\\c"), chars("x\ny\u{1}z"));
    let line = encode_record(&rec);
    let (parsed, end) = parse_record_at(&line, 0).unwrap();
    assert_eq!(parsed, rec);
    assert_eq!(end, line.len());

    let del = Record::Del(chars("gone"));
    let line = encode_record(&del);
    let text: String = line.iter().collect();
    assert_eq!(text, "{\"Del\":\"gone\"}\n");
    let (parsed, _) = parse_record_at(&line, 0).unwrap();
    assert_eq!(parsed, del);
}

#[test]
fn record_parse_rejects_partial_line() {
    let rec = Record::Put(chars("k"), chars("v"));
    let mut line = encode_record(&rec);
    line.pop(); // drop the newline
    assert!(parse_record_at(&line, 0).is_none());
}

#[test]
fn engine_choice_refuses_mismatched_directory() {
    assert_eq!(choose_engine(EngineKind::Kvs, false, false), Ok(EngineKind::Kvs));
    assert_eq!(choose_engine(EngineKind::Sled, false, false), Ok(EngineKind::Sled));
    assert_eq!(choose_engine(EngineKind::Kvs, true, true), Err(Error::Storage));
    assert_eq!(choose_engine(EngineKind::Sled, true, false), Err(Error::Storage));
    assert_eq!(choose_engine(EngineKind::Kvs, true, false), Ok(EngineKind::Kvs));
}

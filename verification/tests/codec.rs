use rbus::codec::{
    decode_remote_error, decode_request, decode_response, encode_remote_error, encode_request,
    encode_response,
};
use rbus::{Id, ObjectID, RemoteError, Request, Response};

fn sample_request() -> Request {
    Request::new(
        Id::from("r1".to_string()),
        vec![vec![1u8, 2, 3], vec![], vec![0xff; 300]],
        ObjectID::new("calc", "1.0"),
        Id::from("reply1".to_string()),
        "Add".to_string(),
    )
}

#[test]
fn request_round_trip() {
    let req = sample_request();
    let bytes = encode_request(&req).unwrap();
    let back = decode_request(&bytes).unwrap();
    assert_eq!(back, sample_request());
}

#[test]
fn response_round_trip() {
    let resp = Response {
        id: Id::from("r1".to_string()),
        arguments: vec![vec![0xc0], vec![9u8; 70000]],
        error: "some failure".to_string(),
    };
    let bytes = encode_response(&resp).unwrap();
    let back = decode_response(&bytes).unwrap();
    assert_eq!(
        back,
        Response {
            id: Id::from("r1".to_string()),
            arguments: vec![vec![0xc0], vec![9u8; 70000]],
            error: "some failure".to_string(),
        }
    );
}

#[test]
fn remote_error_round_trip() {
    let e = RemoteError { message: "Can't divide by zero".to_string() };
    let bytes = encode_remote_error(&e).unwrap();
    let back = decode_remote_error(&bytes).unwrap();
    assert_eq!(back, RemoteError { message: "Can't divide by zero".to_string() });
}

#[test]
fn response_wire_bytes_are_stable() {
    let resp = Response {
        id: Id::from("r1".to_string()),
        arguments: vec![vec![0x01]],
        error: String::new(),
    };
    let bytes = encode_response(&resp).unwrap();
    let expected: Vec<u8> = vec![
        0x83, // map of three entries
        0xa2, b'I', b'D', 0xa2, b'r', b'1', // "ID": "r1"
        0xa9, b'A', b'r', b'g', b'u', b'm', b'e', b'n', b't', b's', // "Arguments"
        0x91, 0xc4, 0x01, 0x01, // one binary blob [0x01]
        0xa5, b'E', b'r', b'r', b'o', b'r', 0xa0, // "Error": ""
    ];
    assert_eq!(bytes, expected);
}

#[test]
fn request_wire_bytes_are_stable() {
    let req = Request::new(
        Id::from("i".to_string()),
        vec![],
        ObjectID::new("c", "2"),
        Id::from("q".to_string()),
        "M".to_string(),
    );
    let bytes = encode_request(&req).unwrap();
    let expected: Vec<u8> = vec![
        0x85, // map of five entries
        0xa2, b'I', b'D', 0xa1, b'i', // "ID": "i"
        0xa9, b'A', b'r', b'g', b'u', b'm', b'e', b'n', b't', b's', 0x90, // no arguments
        0xa6, b'O', b'b', b'j', b'e', b'c', b't', // "Object"
        0x82, 0xa4, b'N', b'a', b'm', b'e', 0xa1, b'c', // {"Name": "c",
        0xa7, b'V', b'e', b'r', b's', b'i', b'o', b'n', 0xa1, b'2', // "Version": "2"}
        0xa7, b'R', b'e', b'p', b'l', b'y', b'T', b'o', 0xa1, b'q', // "ReplyTo": "q"
        0xa6, b'M', b'e', b't', b'h', b'o', b'd', 0xa1, b'M', // "Method": "M"
    ];
    assert_eq!(bytes, expected);
}

#[test]
fn decode_rejects_malformed_payloads() {
    assert!(decode_request(&vec![]).is_none());
    assert!(decode_request(&vec![0x00, 0x01, 0x02]).is_none());
    assert!(decode_request(&vec![0x85, 0xa2, b'I', b'D']).is_none());
    // a valid response is not a valid request
    let resp = Response {
        id: Id::from("r1".to_string()),
        arguments: vec![],
        error: String::new(),
    };
    let bytes = encode_response(&resp).unwrap();
    assert!(decode_request(&bytes).is_none());
}

#[test]
fn decode_rejects_trailing_bytes() {
    let req = sample_request();
    let mut bytes = encode_request(&req).unwrap();
    bytes.push(0x00);
    assert!(decode_request(&bytes).is_none());
}

#[test]
fn string_sizes_cross_header_widths() {
    // method names spanning the fixstr, 8-bit and 16-bit header forms
    for n in [0usize, 31, 32, 255, 256, 70000] {
        let method: String = "m".repeat(n);
        let req = Request::new(
            Id::from("id".to_string()),
            vec![],
            ObjectID::new("o", ""),
            Id::from("q".to_string()),
            method.clone(),
        );
        let bytes = encode_request(&req).unwrap();
        let back = decode_request(&bytes).unwrap();
        assert_eq!(back.method(), method.as_str());
    }
}

#[test]
fn argument_blobs_match_rmp_serde_values() {
    // an argument blob produced by rmp-serde travels through the envelope
    // unchanged and decodes back to the same value
    let blob = rmp_serde::encode::to_vec(&5.0f64).unwrap();
    let req = Request::new(
        Id::from("r1".to_string()),
        vec![blob.clone()],
        ObjectID::new("calc", "1.0"),
        Id::from("reply1".to_string()),
        "Add".to_string(),
    );
    let bytes = encode_request(&req).unwrap();
    let back = decode_request(&bytes).unwrap();
    assert_eq!(back.args().len(), 1);
    let v: f64 = rmp_serde::decode::from_slice(back.args()[0].as_slice()).unwrap();
    assert_eq!(v, 5.0);
}

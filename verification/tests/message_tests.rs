use airsim_rpc::errors::DecodeError;
use airsim_rpc::message::{decode_message, encode_message, Message, Notification, Request, Response};
use airsim_rpc::value::{IntVal, Value};

fn round_trip(m: Message) -> Vec<u8> {
    let bytes = encode_message(&m);
    let (back, end) = decode_message(&bytes, 0).expect("decode failed");
    assert_eq!(back, m);
    assert_eq!(end, bytes.len(), "a frame must consume exactly its own bytes");
    bytes
}

#[test]
fn round_trip_request() {
    round_trip(Message::Request(Request {
        id: 42,
        method: String::from("ping"),
        params: vec![],
    }));
    round_trip(Message::Request(Request {
        id: u32::MAX,
        method: String::from("setCarControls"),
        params: vec![Value::Dict(vec![(
            Value::Str(String::from("throttle")),
            Value::F64(1.0f64.to_bits()),
        )]), Value::Str(String::new())],
    }));
}

#[test]
fn round_trip_response() {
    round_trip(Message::Response(Response { id: 0, result: Ok(Value::Nil) }));
    round_trip(Message::Response(Response {
        id: 9,
        result: Ok(Value::Int(IntVal::Pos(1))),
    }));
    round_trip(Message::Response(Response {
        id: 9,
        result: Err(Value::Str(String::from("method not implemented"))),
    }));
}

#[test]
fn round_trip_notification() {
    round_trip(Message::Notification(Notification {
        method: String::from("reset"),
        params: vec![],
    }));
}

#[test]
fn truncation_recovery_byte_by_byte() {
    // Feeding any valid frame's bytes one byte at a time yields Truncated
    // for every prefix shorter than the full frame, and the complete
    // message exactly at the final byte with zero leftover.
    let m = Message::Request(Request {
        id: 7,
        method: String::from("getServerVersion"),
        params: vec![Value::Int(IntVal::Pos(300)), Value::Str(String::from("x"))],
    });
    let bytes = encode_message(&m);
    for k in 0..bytes.len() {
        assert_eq!(
            decode_message(&bytes[..k], 0),
            Err(DecodeError::Truncated),
            "prefix of {} bytes should ask for more input",
            k
        );
    }
    let (back, end) = decode_message(&bytes, 0).unwrap();
    assert_eq!(back, m);
    assert_eq!(end, bytes.len());
}

#[test]
fn malformed_frames_are_invalid() {
    // A value that is no message shape: a bare integer.
    let mut out = Vec::new();
    airsim_rpc::codec::encode_value_into(&Value::Int(IntVal::Pos(5)), &mut out);
    assert_eq!(decode_message(&out, 0), Err(DecodeError::Invalid));
    // An array with an unknown tag.
    let mut out = Vec::new();
    airsim_rpc::codec::encode_value_into(
        &Value::Arr(vec![
            Value::Int(IntVal::Pos(9)),
            Value::Int(IntVal::Pos(1)),
            Value::Str(String::from("m")),
            Value::Arr(vec![]),
        ]),
        &mut out,
    );
    assert_eq!(decode_message(&out, 0), Err(DecodeError::Invalid));
}

#[test]
fn two_frames_back_to_back() {
    let a = Message::Notification(Notification { method: String::from("reset"), params: vec![] });
    let b = Message::Response(Response { id: 3, result: Ok(Value::Bool(true)) });
    let mut bytes = encode_message(&a);
    let first_len = bytes.len();
    bytes.extend(encode_message(&b));
    let (m1, end1) = decode_message(&bytes, 0).unwrap();
    assert_eq!(m1, a);
    assert_eq!(end1, first_len);
    let (m2, end2) = decode_message(&bytes, end1).unwrap();
    assert_eq!(m2, b);
    assert_eq!(end2, bytes.len());
}

//! Cross-checks against the rmpv reference implementation of the format:
//! the library's canonical encoder must produce byte-for-byte what rmpv
//! writes, and must decode what rmpv writes.

use airsim_rpc::codec::{decode_value, encode_value_into};
use airsim_rpc::value::{IntVal, Value};

fn ours(v: &Value) -> Vec<u8> {
    let mut out = Vec::new();
    encode_value_into(v, &mut out);
    out
}

fn theirs(v: &rmpv::Value) -> Vec<u8> {
    let mut out = Vec::new();
    rmpv::encode::write_value(&mut out, v).expect("rmpv encode failed");
    out
}

fn check(mine: Value, reference: rmpv::Value) {
    let a = ours(&mine);
    let b = theirs(&reference);
    assert_eq!(a, b, "encodings differ for {:?}", mine);
    let (back, end) = decode_value(&a, 0).expect("decode of rmpv-compatible bytes failed");
    assert_eq!(back, mine);
    assert_eq!(end, a.len());
}

#[test]
fn scalars_match_rmpv() {
    check(Value::Nil, rmpv::Value::Nil);
    check(Value::Bool(true), rmpv::Value::Boolean(true));
    check(Value::Bool(false), rmpv::Value::Boolean(false));
    check(Value::F64(2.5f64.to_bits()), rmpv::Value::F64(2.5));
    check(Value::F64((-0.0f64).to_bits()), rmpv::Value::F64(-0.0));
}

#[test]
fn integers_match_rmpv() {
    for i in [
        0i64, 1, 127, 128, 255, 256, 65535, 65536, 0xffff_ffff, 0x1_0000_0000, i64::MAX, -1, -32,
        -33, -128, -129, -32768, -32769, -0x8000_0000, -0x8000_0001, i64::MIN,
    ] {
        check(Value::Int(IntVal::from_i64(i)), rmpv::Value::from(i));
    }
    check(Value::Int(IntVal::Pos(u64::MAX)), rmpv::Value::from(u64::MAX));
}

#[test]
fn strings_and_binary_match_rmpv() {
    for s in ["", "a", "ping", "setCarControls", "héllo", &"x".repeat(300)] {
        check(Value::Str(String::from(s)), rmpv::Value::from(s));
    }
    for b in [vec![], vec![1u8, 2, 3], vec![0u8; 300]] {
        check(Value::Bin(b.clone()), rmpv::Value::Binary(b));
    }
}

#[test]
fn containers_match_rmpv() {
    check(
        Value::Arr(vec![
            Value::Int(IntVal::Pos(1)),
            Value::Str(String::from("two")),
            Value::Arr(vec![Value::Nil]),
        ]),
        rmpv::Value::Array(vec![
            rmpv::Value::from(1u64),
            rmpv::Value::from("two"),
            rmpv::Value::Array(vec![rmpv::Value::Nil]),
        ]),
    );
    check(
        Value::Dict(vec![
            (Value::Str(String::from("throttle")), Value::F64(1.0f64.to_bits())),
            (Value::Str(String::from("brake")), Value::Bool(false)),
        ]),
        rmpv::Value::Map(vec![
            (rmpv::Value::from("throttle"), rmpv::Value::F64(1.0)),
            (rmpv::Value::from("brake"), rmpv::Value::Boolean(false)),
        ]),
    );
    for len in [1usize, 2, 4, 8, 16, 3, 17, 300] {
        check(Value::Ext(7, vec![1u8; len]), rmpv::Value::Ext(7, vec![1u8; len]));
    }
}

#[test]
fn frames_match_rmpv() {
    // A request frame as the remote end builds it: [0, id, method, params].
    let mine = airsim_rpc::message::Message::Request(airsim_rpc::message::Request {
        id: 7,
        method: String::from("setCarControls"),
        params: vec![Value::Int(IntVal::Pos(1))],
    });
    let frame = airsim_rpc::message::encode_message(&mine);
    let reference = rmpv::Value::Array(vec![
        rmpv::Value::from(0u64),
        rmpv::Value::from(7u64),
        rmpv::Value::from("setCarControls"),
        rmpv::Value::Array(vec![rmpv::Value::from(1u64)]),
    ]);
    assert_eq!(frame, theirs(&reference));
    let (back, end) = airsim_rpc::message::decode_message(&frame, 0).unwrap();
    assert_eq!(back, mine);
    assert_eq!(end, frame.len());
}

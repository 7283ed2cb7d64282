use airsim_rpc::codec::{decode_value, encode_value_into};
use airsim_rpc::errors::DecodeError;
use airsim_rpc::value::{IntVal, Value};

fn encode(v: &Value) -> Vec<u8> {
    let mut out = Vec::new();
    encode_value_into(v, &mut out);
    out
}

fn round_trip(v: Value) {
    let bytes = encode(&v);
    let (back, end) = decode_value(&bytes, 0).expect("decode failed");
    assert_eq!(back, v);
    assert_eq!(end, bytes.len());
}

#[test]
fn round_trip_scalars() {
    round_trip(Value::Nil);
    round_trip(Value::Bool(true));
    round_trip(Value::Bool(false));
    round_trip(Value::F64(0.0f64.to_bits()));
    round_trip(Value::F64(3.25f64.to_bits()));
    round_trip(Value::F64((-1.5f64).to_bits()));
}

#[test]
fn round_trip_integers() {
    for i in [
        0i64, 1, 127, 128, 255, 256, 65535, 65536, 0xffff_ffff, 0x1_0000_0000, i64::MAX, -1, -32,
        -33, -128, -129, -32768, -32769, -0x8000_0000, -0x8000_0001, i64::MIN,
    ] {
        round_trip(Value::Int(IntVal::from_i64(i)));
    }
    round_trip(Value::Int(IntVal::Pos(u64::MAX)));
}

#[test]
fn round_trip_strings_and_binary() {
    round_trip(Value::Str(String::new()));
    round_trip(Value::Str(String::from("ping")));
    round_trip(Value::Str(String::from("a".repeat(40))));
    round_trip(Value::Str(String::from("héllo wörld")));
    round_trip(Value::Bin(vec![]));
    round_trip(Value::Bin(vec![0, 1, 2, 255]));
    round_trip(Value::Bin(vec![7u8; 300]));
}

#[test]
fn round_trip_containers() {
    round_trip(Value::Arr(vec![]));
    round_trip(Value::Arr(vec![
        Value::Nil,
        Value::Bool(true),
        Value::Int(IntVal::from_i64(-7)),
        Value::Str(String::from("x")),
        Value::Arr(vec![Value::Int(IntVal::Pos(1))]),
    ]));
    round_trip(Value::Dict(vec![
        (Value::Str(String::from("k")), Value::Int(IntVal::Pos(1))),
        (Value::Str(String::from("k")), Value::Int(IntVal::Pos(2))),
    ]));
    round_trip(Value::Ext(4, vec![1, 2, 3]));
    round_trip(Value::Ext(-1, vec![0u8; 8]));
    round_trip(Value::Ext(-128, vec![9u8; 17]));
    let mut big = Vec::new();
    for i in 0..20u64 {
        big.push(Value::Int(IntVal::Pos(i)));
    }
    round_trip(Value::Arr(big));
}

#[test]
fn exact_bytes_of_known_values() {
    assert_eq!(encode(&Value::Nil), vec![0xc0]);
    assert_eq!(encode(&Value::Bool(false)), vec![0xc2]);
    assert_eq!(encode(&Value::Bool(true)), vec![0xc3]);
    assert_eq!(encode(&Value::Int(IntVal::Pos(5))), vec![0x05]);
    assert_eq!(encode(&Value::Int(IntVal::Pos(200))), vec![0xcc, 200]);
    assert_eq!(encode(&Value::Int(IntVal::Pos(0x1234))), vec![0xcd, 0x12, 0x34]);
    assert_eq!(encode(&Value::Int(IntVal::Neg(-1))), vec![0xff]);
    assert_eq!(encode(&Value::Int(IntVal::Neg(-33))), vec![0xd0, 0xdf]);
    assert_eq!(encode(&Value::Str(String::from("abc"))), vec![0xa3, b'a', b'b', b'c']);
    assert_eq!(
        encode(&Value::Arr(vec![Value::Int(IntVal::Pos(1)), Value::Nil])),
        vec![0x92, 0x01, 0xc0]
    );
}

#[test]
fn decode_normalises_wide_integers() {
    // A value sent in a wider form than needed still decodes, to the
    // canonical representation.
    let bytes = vec![0xce, 0x00, 0x00, 0x00, 0x05];
    let (v, end) = decode_value(&bytes, 0).unwrap();
    assert_eq!(v, Value::Int(IntVal::Pos(5)));
    assert_eq!(end, 5);
    let bytes = vec![0xd1, 0xff, 0xff];
    let (v, _) = decode_value(&bytes, 0).unwrap();
    assert_eq!(v, Value::Int(IntVal::Neg(-1)));
}

#[test]
fn invalid_markers_are_fatal() {
    assert_eq!(decode_value(&[0xc1], 0), Err(DecodeError::Invalid));
    // A 32-bit float is outside the value model.
    assert_eq!(
        decode_value(&[0xca, 0x3f, 0x80, 0x00, 0x00], 0),
        Err(DecodeError::Invalid)
    );
    // A string whose content is not UTF-8.
    assert_eq!(decode_value(&[0xa2, 0xff, 0xfe], 0), Err(DecodeError::Invalid));
}

#[test]
fn truncated_value_prefixes() {
    let v = Value::Arr(vec![
        Value::Str(String::from("hello")),
        Value::Int(IntVal::Pos(300)),
        Value::Bin(vec![1, 2, 3]),
    ]);
    let bytes = encode(&v);
    for k in 0..bytes.len() {
        assert_eq!(decode_value(&bytes[..k], 0), Err(DecodeError::Truncated));
    }
    assert!(decode_value(&bytes, 0).is_ok());
}

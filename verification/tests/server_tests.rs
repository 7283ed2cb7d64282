use airsim_rpc::message::{decode_message, encode_message, Message, Notification, Request, Response};
use airsim_rpc::server::{handle_message, handle_request, ServerConnection};
use airsim_rpc::value::{IntVal, Value};

#[test]
fn set_car_controls_acknowledged_with_callers_id() {
    // ["setCarControls", [{...}, ""]] with id=7 yields a response with id=7
    // and a success integer payload.
    let controls = airsim_rpc::airsim::CarControls {
        throttle: 1.0f64.to_bits(),
        ..Default::default()
    };
    let req = Request {
        id: 7,
        method: String::from("setCarControls"),
        params: controls.serialize(),
    };
    let resp = handle_request(&req);
    assert_eq!(resp.id, 7);
    assert_eq!(resp.result, Ok(Value::Int(IntVal::Pos(1))));
}

#[test]
fn unknown_method_yields_nonempty_error_string() {
    let req = Request { id: 9, method: String::from("noSuchMethod"), params: vec![] };
    let resp = handle_request(&req);
    assert_eq!(resp.id, 9);
    match resp.result {
        Err(Value::Str(s)) => assert!(!s.is_empty()),
        other => panic!("expected a string error payload, got {:?}", other),
    }
}

#[test]
fn method_table_answers() {
    let call = |name: &str| handle_request(&Request {
        id: 1,
        method: String::from(name),
        params: vec![],
    }).result;
    assert_eq!(call("ping"), Ok(Value::Str(String::from("pong"))));
    assert_eq!(call("reset"), Ok(Value::Str(String::from("ok"))));
    assert_eq!(call("getServerVersion"), Ok(Value::Int(IntVal::Pos(1))));
    assert_eq!(call("getMinRequiredClientVersion"), Ok(Value::Int(IntVal::Pos(1))));
    assert_eq!(call("enableApiControl"), Ok(Value::Bool(true)));
    assert_eq!(call("getCarState"), Ok(Value::Int(IntVal::Pos(1))));
}

#[test]
fn notification_gets_no_reply() {
    let m = Message::Notification(Notification { method: String::from("reset"), params: vec![] });
    assert!(handle_message(&m).is_none());
}

#[test]
fn stray_response_is_discarded() {
    let m = Message::Response(Response { id: 3, result: Ok(Value::Nil) });
    assert!(handle_message(&m).is_none());
}

#[test]
fn connection_answers_requests_in_order() {
    let mut conn = ServerConnection::new();
    let mut wire = encode_message(&Message::Request(Request {
        id: 1,
        method: String::from("ping"),
        params: vec![],
    }));
    wire.extend(encode_message(&Message::Notification(Notification {
        method: String::from("reset"),
        params: vec![],
    })));
    wire.extend(encode_message(&Message::Request(Request {
        id: 2,
        method: String::from("enableApiControl"),
        params: vec![],
    })));
    let writes = conn.bytes_read(&wire);
    assert_eq!(writes.len(), 2, "two requests, one notification: two replies");
    let (r1, _) = decode_message(&writes[0], 0).unwrap();
    assert_eq!(
        r1,
        Message::Response(Response { id: 1, result: Ok(Value::Str(String::from("pong"))) })
    );
    let (r2, _) = decode_message(&writes[1], 0).unwrap();
    assert_eq!(r2, Message::Response(Response { id: 2, result: Ok(Value::Bool(true)) }));
    assert!(!conn.is_closed());
}

#[test]
fn connection_waits_on_partial_frames() {
    let mut conn = ServerConnection::new();
    let wire = encode_message(&Message::Request(Request {
        id: 4,
        method: String::from("getCarState"),
        params: vec![],
    }));
    let (head, tail) = wire.split_at(wire.len() / 2);
    assert!(conn.bytes_read(head).is_empty());
    let writes = conn.bytes_read(tail);
    assert_eq!(writes.len(), 1);
    let (r, _) = decode_message(&writes[0], 0).unwrap();
    assert_eq!(r, Message::Response(Response { id: 4, result: Ok(Value::Int(IntVal::Pos(1))) }));
}

#[test]
fn malformed_frame_terminates_the_connection() {
    let mut conn = ServerConnection::new();
    let writes = conn.bytes_read(&[0xc1]);
    assert!(writes.is_empty());
    assert!(conn.is_closed());
}

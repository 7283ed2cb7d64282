use airsim_rpc::message::{encode_message, Message, Notification, Request, Response};
use airsim_rpc::transport::{Action, ClientTransport};
use airsim_rpc::value::{IntVal, Value};

fn response_frame(id: u32, result: Result<Value, Value>) -> Vec<u8> {
    encode_message(&Message::Response(Response { id, result }))
}

#[test]
fn correlation_under_permuted_responses() {
    // Three requests in flight under distinct ids; their responses arrive
    // in a different order than the requests were issued, yet each call's
    // token is resolved with the response carrying its own id.
    let mut t = ClientTransport::new();
    let (id_a, _) = t.send_request(1001, String::from("ping"), vec![]);
    let (id_b, _) = t.send_request(1002, String::from("getServerVersion"), vec![]);
    let (id_c, _) = t.send_request(1003, String::from("getCarState"), vec![]);
    assert_eq!((id_a, id_b, id_c), (0, 1, 2));
    assert_eq!(t.pending_calls(), 3);

    let mut wire = Vec::new();
    wire.extend(response_frame(id_c, Ok(Value::Int(IntVal::Pos(30)))));
    wire.extend(response_frame(id_a, Ok(Value::Int(IntVal::Pos(10)))));
    wire.extend(response_frame(id_b, Ok(Value::Int(IntVal::Pos(20)))));

    let acts = t.bytes_read(&wire);
    assert_eq!(acts.len(), 3);
    let expect = [(1003u64, id_c, 30u64), (1001, id_a, 10), (1002, id_b, 20)];
    for (act, (token, id, payload)) in acts.iter().zip(expect) {
        match act {
            Action::Deliver { token: got_token, response } => {
                assert_eq!(*got_token, token);
                assert_eq!(response.id, id);
                assert_eq!(response.result, Ok(Value::Int(IntVal::Pos(payload))));
            }
            other => panic!("expected a delivery, got {:?}", action_name(other)),
        }
    }
    assert_eq!(t.pending_calls(), 0);
    assert!(!t.is_closed());
}

fn action_name(a: &Action) -> &'static str {
    match a {
        Action::Write(_) => "Write",
        Action::Deliver { .. } => "Deliver",
        Action::InboundRequest(_) => "InboundRequest",
        Action::InboundNotification(_) => "InboundNotification",
        Action::AnomalousResponse(_) => "AnomalousResponse",
        Action::Fail { .. } => "Fail",
    }
}

#[test]
fn notify_registers_nothing() {
    let mut t = ClientTransport::new();
    let (_, _) = t.send_request(7, String::from("ping"), vec![]);
    assert_eq!(t.pending_calls(), 1);
    let frame = t.send_notification(String::from("reset"), vec![]);
    // The notification produced a frame to write but no table entry: nothing
    // will ever wait for a reply to it.
    assert!(!frame.is_empty());
    assert_eq!(t.pending_calls(), 1);
    let (m, _) = airsim_rpc::message::decode_message(&frame, 0).unwrap();
    assert_eq!(
        m,
        Message::Notification(Notification { method: String::from("reset"), params: vec![] })
    );
}

#[test]
fn dropped_connection_fails_pending_calls() {
    let mut t = ClientTransport::new();
    let (_, _) = t.send_request(501, String::from("ping"), vec![]);
    let (_, _) = t.send_request(502, String::from("getCarState"), vec![]);
    let acts = t.connection_lost();
    assert_eq!(acts.len(), 2);
    assert!(matches!(acts[0], Action::Fail { token: 501, .. }));
    assert!(matches!(acts[1], Action::Fail { token: 502, .. }));
    assert_eq!(t.pending_calls(), 0);
    assert!(t.is_closed());
}

#[test]
fn malformed_frame_fails_pending_and_closes() {
    let mut t = ClientTransport::new();
    let (_, _) = t.send_request(99, String::from("ping"), vec![]);
    // 0xc1 can never begin a frame.
    let acts = t.bytes_read(&[0xc1]);
    assert_eq!(acts.len(), 1);
    assert!(matches!(acts[0], Action::Fail { token: 99, .. }));
    assert!(t.is_closed());
    assert_eq!(t.pending_calls(), 0);
}

#[test]
fn partial_reads_make_progress_without_losing_bytes() {
    let mut t = ClientTransport::new();
    let (id, _) = t.send_request(11, String::from("ping"), vec![]);
    let frame = response_frame(id, Ok(Value::Str(String::from("pong"))));
    for &b in &frame[..frame.len() - 1] {
        let acts = t.bytes_read(&[b]);
        assert!(acts.is_empty(), "no frame is complete yet");
    }
    let acts = t.bytes_read(&frame[frame.len() - 1..]);
    assert_eq!(acts.len(), 1);
    match &acts[0] {
        Action::Deliver { token, response } => {
            assert_eq!(*token, 11);
            assert_eq!(response.id, id);
        }
        other => panic!("expected a delivery, got {:?}", action_name(other)),
    }
}

#[test]
fn unknown_response_id_is_a_dropped_anomaly() {
    let mut t = ClientTransport::new();
    let (_, _) = t.send_request(5, String::from("ping"), vec![]);
    let acts = t.bytes_read(&response_frame(999, Ok(Value::Nil)));
    assert_eq!(acts.len(), 1);
    assert!(matches!(&acts[0], Action::AnomalousResponse(r) if r.id == 999));
    // The anomaly is non-fatal: the connection and the pending call live on.
    assert!(!t.is_closed());
    assert_eq!(t.pending_calls(), 1);
}

#[test]
fn server_push_goes_inbound() {
    let mut t = ClientTransport::new();
    let push = encode_message(&Message::Request(Request {
        id: 1,
        method: String::from("poke"),
        params: vec![],
    }));
    let acts = t.bytes_read(&push);
    assert_eq!(acts.len(), 1);
    assert!(matches!(&acts[0], Action::InboundRequest(r) if r.method == "poke"));
}

#[test]
fn request_frame_is_what_goes_on_the_wire() {
    let mut t = ClientTransport::new();
    let (id, frame) = t.send_request(1, String::from("ping"), vec![]);
    let (m, end) = airsim_rpc::message::decode_message(&frame, 0).unwrap();
    assert_eq!(end, frame.len());
    assert_eq!(m, Message::Request(Request { id, method: String::from("ping"), params: vec![] }));
}

#[test]
fn call_args_check_accepts_framable_arguments() {
    // Only payloads beyond the 32-bit length headers are unframable, so
    // everything of ordinary size passes, nested values included.
    assert!(ClientTransport::call_args_wf(
        &String::from("setCarControls"),
        &vec![
            Value::Str(String::from("héllo")),
            Value::Arr(vec![Value::Nil, Value::Int(IntVal::Neg(-3))]),
            Value::Dict(vec![(Value::Str(String::from("k")), Value::F64(1.5f64.to_bits()))]),
            Value::Ext(2, vec![0, 1]),
        ]
    ));
}

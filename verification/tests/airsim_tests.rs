use airsim_rpc::airsim::{
    enable_api_control_call, get_client_version, get_server_version_call, parse_enable_api_control,
    parse_server_version, ping_call, reset_call, set_car_controls_call, CarControls,
};
use airsim_rpc::message::Response;
use airsim_rpc::value::{IntVal, Value};

#[test]
fn call_builders_name_the_catalog_methods() {
    assert_eq!(ping_call().0, "ping");
    assert!(ping_call().1.is_empty());
    assert_eq!(reset_call().0, "reset");
    assert_eq!(get_server_version_call().0, "getServerVersion");
    let (method, params) = enable_api_control_call();
    assert_eq!(method, "enableApiControl");
    assert_eq!(params, vec![Value::Bool(true), Value::Str(String::new())]);
}

#[test]
fn car_controls_serialize_shape() {
    let controls = CarControls {
        throttle: 0.6f64.to_bits(),
        steering: (-0.2f64).to_bits(),
        brake: 0.0f64.to_bits(),
        handbrake: false,
        is_manual_gear: true,
        manual_gear: -1,
        gear_immediate: true,
    };
    let (method, params) = set_car_controls_call(&controls);
    assert_eq!(method, "setCarControls");
    assert_eq!(params.len(), 2, "the mapping, then the vehicle identifier");
    assert_eq!(params[1], Value::Str(String::new()));
    match &params[0] {
        Value::Dict(pairs) => {
            let expected: Vec<(&str, Value)> = vec![
                ("throttle", Value::F64(0.6f64.to_bits())),
                ("steering", Value::F64((-0.2f64).to_bits())),
                ("brake", Value::F64(0.0f64.to_bits())),
                ("handbrake", Value::Bool(false)),
                ("is_manual_gear", Value::Bool(true)),
                ("manual_gear", Value::Int(IntVal::Neg(-1))),
                ("gear_immediate", Value::Bool(true)),
            ];
            assert_eq!(pairs.len(), expected.len());
            for ((key, value), (name, want)) in pairs.iter().zip(expected) {
                assert_eq!(key, &Value::Str(String::from(name)));
                assert_eq!(value, &want);
            }
        }
        other => panic!("first parameter should be the control mapping, got {:?}", other),
    }
}

#[test]
fn server_version_parsing() {
    let ok = Response { id: 1, result: Ok(Value::Int(IntVal::Pos(3))) };
    assert_eq!(parse_server_version(&ok), 3);
    let err = Response { id: 1, result: Err(Value::Str(String::from("boom"))) };
    assert_eq!(parse_server_version(&err), 0);
    let odd = Response { id: 1, result: Ok(Value::Str(String::from("three"))) };
    assert_eq!(parse_server_version(&odd), 0);
    let huge = Response { id: 1, result: Ok(Value::Int(IntVal::Pos(u64::MAX))) };
    assert_eq!(parse_server_version(&huge), 0);
}

#[test]
fn api_control_parsing() {
    let granted = Response { id: 1, result: Ok(Value::Bool(true)) };
    assert!(parse_enable_api_control(&granted));
    let denied = Response { id: 1, result: Ok(Value::Bool(false)) };
    assert!(!parse_enable_api_control(&denied));
    let err = Response { id: 1, result: Err(Value::Nil) };
    assert!(!parse_enable_api_control(&err));
}

#[test]
fn client_version_is_fixed() {
    assert_eq!(get_client_version(), "1");
}

//! Builders and reply parsers for the simulator's method catalog.
//!
//! Each call the client makes — the liveness `ping` and capability
//! negotiation `enableApiControl` performed at connection setup, the `reset`
//! notification, `getServerVersion`, `setCarControls` — is built here as a
//! method name with its positional parameters, ready for
//! [`crate::transport::ClientTransport::send_request`] or
//! [`crate::transport::ClientTransport::send_notification`]; the replies are
//! interpreted here as well. The I/O shell only moves the frames.

use vstd::prelude::*;

use crate::message::Response;
use crate::value::{
    all_wf, elems_view, lemma_ascii_str_wf, max_len, pairs_view, IntVal, Val, Value,
};

verus! {

/// Wire-level control-surface values for the vehicle, as the `setCarControls`
/// call carries them. The three continuous controls are IEEE-754 double
/// bit patterns (`f64::to_bits` / `f64::from_bits`); the library never
/// computes with them, it only frames them.
#[derive(Clone, Copy, Debug, Default, PartialEq)]
pub struct CarControls {
    pub throttle: u64,
    pub steering: u64,
    pub brake: u64,
    pub handbrake: bool,
    pub is_manual_gear: bool,
    pub manual_gear: i8,
    pub gear_immediate: bool,
}

/// The key/value pairs of the control payload, in wire order.
pub open spec fn control_pairs(c: CarControls) -> Seq<(Val, Val)> {
    seq![
        (Val::Str("throttle"@), Val::F64(c.throttle)),
        (Val::Str("steering"@), Val::F64(c.steering)),
        (Val::Str("brake"@), Val::F64(c.brake)),
        (Val::Str("handbrake"@), Val::Bool(c.handbrake)),
        (Val::Str("is_manual_gear"@), Val::Bool(c.is_manual_gear)),
        (Val::Str("manual_gear"@), Val::Int(c.manual_gear as int)),
        (Val::Str("gear_immediate"@), Val::Bool(c.gear_immediate)),
    ]
}

/// The positional parameters of `setCarControls`: the control mapping, then
/// the vehicle identifier the target service requires (conventionally
/// empty).
pub open spec fn spec_serialize(c: CarControls) -> Seq<Val> {
    seq![Val::Dict(control_pairs(c)), Val::Str(""@)]
}

/// A parameter sequence fit for a request or notification frame.
pub open spec fn params_ok(s: Seq<Val>) -> bool {
    s.len() <= max_len() && all_wf(s)
}

impl CarControls {
    /// Build the positional parameter list of a `setCarControls` call.
    pub fn serialize(&self) -> (r: Vec<Value>)
        ensures
            elems_view(r@) == spec_serialize(*self),
            params_ok(elems_view(r@)),
    {
        proof {
            reveal_strlit("throttle");
            reveal_strlit("steering");
            reveal_strlit("brake");
            reveal_strlit("handbrake");
            reveal_strlit("is_manual_gear");
            reveal_strlit("manual_gear");
            reveal_strlit("gear_immediate");
            reveal_strlit("");
            lemma_ascii_str_wf("throttle"@);
            lemma_ascii_str_wf("steering"@);
            lemma_ascii_str_wf("brake"@);
            lemma_ascii_str_wf("handbrake"@);
            lemma_ascii_str_wf("is_manual_gear"@);
            lemma_ascii_str_wf("manual_gear"@);
            lemma_ascii_str_wf("gear_immediate"@);
            lemma_ascii_str_wf(""@);
        }
        let pairs: Vec<(Value, Value)> = vec![
            (Value::Str(String::from_str("throttle")), Value::F64(self.throttle)),
            (Value::Str(String::from_str("steering")), Value::F64(self.steering)),
            (Value::Str(String::from_str("brake")), Value::F64(self.brake)),
            (Value::Str(String::from_str("handbrake")), Value::Bool(self.handbrake)),
            (Value::Str(String::from_str("is_manual_gear")), Value::Bool(self.is_manual_gear)),
            (
                Value::Str(String::from_str("manual_gear")),
                Value::Int(IntVal::from_i64(self.manual_gear as i64)),
            ),
            (Value::Str(String::from_str("gear_immediate")), Value::Bool(self.gear_immediate)),
        ];
        proof {
            reveal_with_fuel(pairs_view, 9);
            assert(pairs_view(pairs@) =~= control_pairs(*self));
        }
        let map = Value::Dict(pairs);
        let vehicle = Value::Str(String::from_str(""));
        let r: Vec<Value> = vec![map, vehicle];
        proof {
            reveal_with_fuel(elems_view, 4);
            assert(elems_view(r@) =~= spec_serialize(*self));
            reveal_with_fuel(crate::value::all_wf, 4);
            reveal_with_fuel(crate::value::pairs_all_wf, 9);
            assert(crate::value::pairs_all_wf(control_pairs(*self)));
            assert(all_wf(elems_view(r@)));
        }
        r
    }
}

/// An empty parameter list.
fn no_params() -> (r: Vec<Value>)
    ensures
        elems_view(r@) == Seq::<Val>::empty(),
        params_ok(elems_view(r@)),
{
    let r: Vec<Value> = Vec::new();
    proof {
        assert(elems_view(r@) =~= Seq::<Val>::empty());
    }
    r
}

/// The liveness handshake performed at connection setup.
pub fn ping_call() -> (r: (String, Vec<Value>))
    ensures
        r.0@ == "ping"@,
        Val::Str(r.0@).wf(),
        elems_view(r.1@) == Seq::<Val>::empty(),
        params_ok(elems_view(r.1@)),
{
    proof {
        reveal_strlit("ping");
        lemma_ascii_str_wf("ping"@);
    }
    (String::from_str("ping"), no_params())
}

/// The fire-and-forget simulator reset.
pub fn reset_call() -> (r: (String, Vec<Value>))
    ensures
        r.0@ == "reset"@,
        Val::Str(r.0@).wf(),
        elems_view(r.1@) == Seq::<Val>::empty(),
        params_ok(elems_view(r.1@)),
{
    proof {
        reveal_strlit("reset");
        lemma_ascii_str_wf("reset"@);
    }
    (String::from_str("reset"), no_params())
}

/// Ask the server for its version.
pub fn get_server_version_call() -> (r: (String, Vec<Value>))
    ensures
        r.0@ == "getServerVersion"@,
        Val::Str(r.0@).wf(),
        elems_view(r.1@) == Seq::<Val>::empty(),
        params_ok(elems_view(r.1@)),
{
    proof {
        reveal_strlit("getServerVersion");
        lemma_ascii_str_wf("getServerVersion"@);
    }
    (String::from_str("getServerVersion"), no_params())
}

/// The capability negotiation performed at connection setup: request api
/// control for the vehicle with the conventional empty identifier.
pub fn enable_api_control_call() -> (r: (String, Vec<Value>))
    ensures
        r.0@ == "enableApiControl"@,
        Val::Str(r.0@).wf(),
        elems_view(r.1@) == seq![Val::Bool(true), Val::Str(""@)],
        params_ok(elems_view(r.1@)),
{
    proof {
        reveal_strlit("enableApiControl");
        reveal_strlit("");
        lemma_ascii_str_wf("enableApiControl"@);
        lemma_ascii_str_wf(""@);
    }
    let params: Vec<Value> = vec![Value::Bool(true), Value::Str(String::from_str(""))];
    proof {
        reveal_with_fuel(elems_view, 4);
        assert(elems_view(params@) =~= seq![Val::Bool(true), Val::Str(""@)]);
        reveal_with_fuel(crate::value::all_wf, 4);
        assert(all_wf(elems_view(params@)));
    }
    (String::from_str("enableApiControl"), params)
}

/// Send the current control surfaces to the vehicle.
pub fn set_car_controls_call(controls: &CarControls) -> (r: (String, Vec<Value>))
    ensures
        r.0@ == "setCarControls"@,
        Val::Str(r.0@).wf(),
        elems_view(r.1@) == spec_serialize(*controls),
        params_ok(elems_view(r.1@)),
{
    proof {
        reveal_strlit("setCarControls");
        lemma_ascii_str_wf("setCarControls"@);
    }
    (String::from_str("setCarControls"), controls.serialize())
}

/// What a `getServerVersion` reply means: the integer payload when there is
/// one that fits a signed 64-bit integer, 0 for an application error or any
/// other payload shape.
pub open spec fn spec_server_version(r: crate::message::RespV) -> int {
    match r.result {
        Ok(v) => match v {
            Val::Int(i) => if i64::MIN as int <= i <= i64::MAX as int {
                i
            } else {
                0
            },
            _ => 0,
        },
        Err(_) => 0,
    }
}

/// Read the server's version out of its reply.
pub fn parse_server_version(resp: &Response) -> (r: i64)
    ensures
        r as int == spec_server_version(resp@),
{
    match &resp.result {
        Ok(Value::Int(i)) => match i.as_i64() {
            Some(n) => n,
            None => 0,
        },
        _ => 0,
    }
}

/// Whether an `enableApiControl` reply granted control: a success payload
/// that is exactly the boolean true.
pub open spec fn spec_api_control_granted(r: crate::message::RespV) -> bool {
    match r.result {
        Ok(v) => v == Val::Bool(true),
        Err(_) => false,
    }
}

/// Read an `enableApiControl` reply.
pub fn parse_enable_api_control(resp: &Response) -> (r: bool)
    ensures
        r == spec_api_control_granted(resp@),
{
    match &resp.result {
        Ok(Value::Bool(b)) => *b,
        _ => false,
    }
}

/// The client library's own version string.
pub fn get_client_version() -> (r: String)
    ensures
        r@ == "1"@,
{
    String::from_str("1")
}

} // verus!

//! The three message kinds and their array-tagged wire framing.
//!
//! A request travels as the four-element array `[0, id, method, params]`, a
//! response as `[1, id, error, result]` with exactly one of `error`/`result`
//! nil, and a notification as the three-element array `[2, method, params]`.

use vstd::prelude::*;

use crate::codec::{
    decode_value, dec_val, enc_val, encode_array_into, encode_str_into, encode_uint_into,
    encode_value_into, lemma_round_trip_val, lemma_truncation_val, DecRes,
};
use crate::errors::DecodeError;
use crate::value::{all_wf, elems_view, max_len, Val, Value};

verus! {

/// A call that expects a response carrying the same correlation id.
#[derive(Debug, PartialEq)]
pub struct Request {
    pub id: u32,
    pub method: String,
    pub params: Vec<Value>,
}

/// The answer to the request with the same correlation id: a success payload
/// or an application-level error payload, mutually exclusive.
#[derive(Debug, PartialEq)]
pub struct Response {
    pub id: u32,
    pub result: Result<Value, Value>,
}

/// A one-way call: no reply, no correlation id.
#[derive(Debug, PartialEq)]
pub struct Notification {
    pub method: String,
    pub params: Vec<Value>,
}

/// Any frame the wire can carry.
#[derive(Debug, PartialEq)]
pub enum Message {
    Request(Request),
    Response(Response),
    Notification(Notification),
}

/// Model of a [`Request`].
#[verifier::ext_equal]
pub struct ReqV {
    pub id: int,
    pub method: Seq<char>,
    pub params: Seq<Val>,
}

/// Model of a [`Response`].
#[verifier::ext_equal]
pub struct RespV {
    pub id: int,
    pub result: Result<Val, Val>,
}

/// Model of a [`Notification`].
#[verifier::ext_equal]
pub struct NotV {
    pub method: Seq<char>,
    pub params: Seq<Val>,
}

/// Model of a [`Message`].
#[verifier::ext_equal]
pub enum Msg {
    Request(ReqV),
    Response(RespV),
    Notification(NotV),
}

impl View for Request {
    type V = ReqV;

    open spec fn view(&self) -> ReqV {
        ReqV { id: self.id as int, method: self.method@, params: elems_view(self.params@) }
    }
}

impl View for Response {
    type V = RespV;

    open spec fn view(&self) -> RespV {
        RespV {
            id: self.id as int,
            result: match self.result {
                Ok(ref v) => Ok(v@),
                Err(ref e) => Err(e@),
            },
        }
    }
}

impl View for Notification {
    type V = NotV;

    open spec fn view(&self) -> NotV {
        NotV { method: self.method@, params: elems_view(self.params@) }
    }
}

impl View for Message {
    type V = Msg;

    open spec fn view(&self) -> Msg {
        match self {
            Message::Request(r) => Msg::Request(r@),
            Message::Response(r) => Msg::Response(r@),
            Message::Notification(n) => Msg::Notification(n@),
        }
    }
}

impl ReqV {
    pub open spec fn wf(self) -> bool {
        &&& 0 <= self.id <= u32::MAX as int
        &&& Val::Str(self.method).wf()
        &&& self.params.len() <= max_len()
        &&& all_wf(self.params)
    }
}

impl RespV {
    /// The error payload of a failed call carries the information; a nil
    /// error payload would be indistinguishable from success on the wire.
    pub open spec fn wf(self) -> bool {
        &&& 0 <= self.id <= u32::MAX as int
        &&& match self.result {
            Ok(v) => v.wf(),
            Err(e) => e.wf() && e != Val::Nil,
        }
    }
}

impl NotV {
    pub open spec fn wf(self) -> bool {
        &&& Val::Str(self.method).wf()
        &&& self.params.len() <= max_len()
        &&& all_wf(self.params)
    }
}

impl Msg {
    pub open spec fn wf(self) -> bool {
        match self {
            Msg::Request(r) => r.wf(),
            Msg::Response(r) => r.wf(),
            Msg::Notification(n) => n.wf(),
        }
    }
}

/// The error slot of a response frame.
pub open spec fn err_slot(result: Result<Val, Val>) -> Val {
    match result {
        Ok(_) => Val::Nil,
        Err(e) => e,
    }
}

/// The result slot of a response frame.
pub open spec fn ok_slot(result: Result<Val, Val>) -> Val {
    match result {
        Ok(v) => v,
        Err(_) => Val::Nil,
    }
}

/// The dynamic value a message travels as.
pub open spec fn msg_val(m: Msg) -> Val {
    match m {
        Msg::Request(r) => Val::Arr(
            seq![Val::Int(0), Val::Int(r.id), Val::Str(r.method), Val::Arr(r.params)],
        ),
        Msg::Response(r) => Val::Arr(
            seq![Val::Int(1), Val::Int(r.id), err_slot(r.result), ok_slot(r.result)],
        ),
        Msg::Notification(n) => Val::Arr(
            seq![Val::Int(2), Val::Str(n.method), Val::Arr(n.params)],
        ),
    }
}

/// The encoding of a message: the canonical encoding of its value form.
pub open spec fn enc_msg(m: Msg) -> Seq<u8> {
    enc_val(msg_val(m))
}

/// Reading a message out of a decoded value. `None` means the value is no
/// valid frame.
pub open spec fn interp_msg(v: Val) -> Option<Msg> {
    match v {
        Val::Arr(items) => {
            if items.len() == 4 && items[0] == Val::Int(0) {
                match (items[1], items[2], items[3]) {
                    (Val::Int(id), Val::Str(method), Val::Arr(params)) => if 0 <= id <= u32::MAX
                        as int {
                        Some(Msg::Request(ReqV { id, method, params }))
                    } else {
                        None
                    },
                    _ => None,
                }
            } else if items.len() == 4 && items[0] == Val::Int(1) {
                match items[1] {
                    Val::Int(id) => if 0 <= id <= u32::MAX as int {
                        if items[2] == Val::Nil {
                            Some(Msg::Response(RespV { id, result: Ok(items[3]) }))
                        } else {
                            Some(Msg::Response(RespV { id, result: Err(items[2]) }))
                        }
                    } else {
                        None
                    },
                    _ => None,
                }
            } else if items.len() == 3 && items[0] == Val::Int(2) {
                match (items[1], items[2]) {
                    (Val::Str(method), Val::Arr(params)) => Some(
                        Msg::Notification(NotV { method, params }),
                    ),
                    _ => None,
                }
            } else {
                None
            }
        },
        _ => None,
    }
}

/// Decode one message from the head of `b`.
pub open spec fn dec_msg(b: Seq<u8>) -> DecRes<Msg> {
    match dec_val(b) {
        DecRes::Got(v, k) => match interp_msg(v) {
            Some(m) => DecRes::Got(m, k),
            None => DecRes::Invalid,
        },
        DecRes::Truncated => DecRes::Truncated,
        DecRes::Invalid => DecRes::Invalid,
    }
}

/// Four well-formed values make a well-formed sequence.
proof fn lemma_all_wf4(a: Val, b: Val, c: Val, d: Val)
    requires
        a.wf(),
        b.wf(),
        c.wf(),
        d.wf(),
    ensures
        all_wf(seq![a, b, c, d]),
{
    assert(all_wf(Seq::<Val>::empty()));
    assert(seq![d].drop_first() =~= Seq::<Val>::empty());
    assert(all_wf(seq![d]));
    assert(seq![c, d].drop_first() =~= seq![d]);
    assert(all_wf(seq![c, d]));
    assert(seq![b, c, d].drop_first() =~= seq![c, d]);
    assert(all_wf(seq![b, c, d]));
    assert(seq![a, b, c, d].drop_first() =~= seq![b, c, d]);
    assert(all_wf(seq![a, b, c, d]));
}

/// Three well-formed values make a well-formed sequence.
proof fn lemma_all_wf3(a: Val, b: Val, c: Val)
    requires
        a.wf(),
        b.wf(),
        c.wf(),
    ensures
        all_wf(seq![a, b, c]),
{
    assert(all_wf(Seq::<Val>::empty()));
    assert(seq![c].drop_first() =~= Seq::<Val>::empty());
    assert(all_wf(seq![c]));
    assert(seq![b, c].drop_first() =~= seq![c]);
    assert(all_wf(seq![b, c]));
    assert(seq![a, b, c].drop_first() =~= seq![b, c]);
    assert(all_wf(seq![a, b, c]));
}

/// A well-formed message frames to a well-formed value.
pub proof fn lemma_msg_val_wf(m: Msg)
    requires
        m.wf(),
    ensures
        msg_val(m).wf(),
{
    match m {
        Msg::Request(r) => {
            lemma_all_wf4(Val::Int(0), Val::Int(r.id), Val::Str(r.method), Val::Arr(r.params));
        },
        Msg::Response(r) => {
            lemma_all_wf4(Val::Int(1), Val::Int(r.id), err_slot(r.result), ok_slot(r.result));
        },
        Msg::Notification(n) => {
            lemma_all_wf3(Val::Int(2), Val::Str(n.method), Val::Arr(n.params));
        },
    }
}

/// Round trip: decoding the encoding of a well-formed message, with anything
/// at all behind it, yields the message back and consumes exactly the
/// encoding.
pub proof fn lemma_round_trip_msg(m: Msg, tail: Seq<u8>)
    requires
        m.wf(),
    ensures
        dec_msg(enc_msg(m) + tail) == DecRes::Got(m, enc_msg(m).len() as int),
{
    lemma_msg_val_wf(m);
    lemma_round_trip_val(msg_val(m), tail);
    assert(interp_msg(msg_val(m)) == Some(m));
}

/// Truncation recovery: any strict prefix of an encoded message asks for more
/// input.
pub proof fn lemma_truncation_msg(m: Msg, k: int)
    requires
        m.wf(),
        0 <= k < enc_msg(m).len(),
    ensures
        dec_msg(enc_msg(m).take(k)) is Truncated,
{
    lemma_msg_val_wf(m);
    lemma_truncation_val(msg_val(m), k);
}

/// Four encodings in a row.
proof fn lemma_enc_elems4(a: Val, b: Val, c: Val, d: Val)
    ensures
        crate::codec::enc_elems(seq![a, b, c, d]) == enc_val(a) + enc_val(b) + enc_val(c)
            + enc_val(d),
{
    assert(crate::codec::enc_elems(Seq::<Val>::empty()) == Seq::<u8>::empty());
    assert(seq![d].drop_first() =~= Seq::<Val>::empty());
    assert(crate::codec::enc_elems(seq![d]) =~= enc_val(d));
    assert(seq![c, d].drop_first() =~= seq![d]);
    assert(crate::codec::enc_elems(seq![c, d]) =~= enc_val(c) + enc_val(d));
    assert(seq![b, c, d].drop_first() =~= seq![c, d]);
    assert(crate::codec::enc_elems(seq![b, c, d]) =~= enc_val(b) + (enc_val(c) + enc_val(d)));
    assert(seq![a, b, c, d].drop_first() =~= seq![b, c, d]);
    assert(crate::codec::enc_elems(seq![a, b, c, d]) =~= enc_val(a) + enc_val(b) + enc_val(c)
        + enc_val(d));
}

/// Three encodings in a row.
proof fn lemma_enc_elems3(a: Val, b: Val, c: Val)
    ensures
        crate::codec::enc_elems(seq![a, b, c]) == enc_val(a) + enc_val(b) + enc_val(c),
{
    assert(crate::codec::enc_elems(Seq::<Val>::empty()) == Seq::<u8>::empty());
    assert(seq![c].drop_first() =~= Seq::<Val>::empty());
    assert(crate::codec::enc_elems(seq![c]) =~= enc_val(c));
    assert(seq![b, c].drop_first() =~= seq![c]);
    assert(crate::codec::enc_elems(seq![b, c]) =~= enc_val(b) + enc_val(c));
    assert(seq![a, b, c].drop_first() =~= seq![b, c]);
    assert(crate::codec::enc_elems(seq![a, b, c]) =~= enc_val(a) + enc_val(b) + enc_val(c));
}

/// Encode a message into a fresh byte vector: one complete wire frame.
#[verifier::rlimit(60)]
#[verifier::spinoff_prover]
pub fn encode_message(m: &Message) -> (r: Vec<u8>)
    requires
        m@.wf(),
    ensures
        r@ == enc_msg(m@),
{
    let mut out: Vec<u8> = Vec::new();
    match m {
        Message::Request(req) => {
            proof {
                lemma_enc_elems4(
                    Val::Int(0),
                    Val::Int(req.id as int),
                    Val::Str(req.method@),
                    Val::Arr(elems_view(req.params@)),
                );
            }
            out.push(0x94);
            encode_uint_into(0, &mut out);
            encode_uint_into(req.id as u64, &mut out);
            encode_str_into(&req.method, &mut out);
            encode_array_into(&req.params, &mut out);
            assert(out@ =~= enc_msg(m@));
        },
        Message::Response(resp) => {
            proof {
                lemma_enc_elems4(
                    Val::Int(1),
                    Val::Int(resp.id as int),
                    err_slot(resp@.result),
                    ok_slot(resp@.result),
                );
            }
            out.push(0x94);
            encode_uint_into(1, &mut out);
            encode_uint_into(resp.id as u64, &mut out);
            match &resp.result {
                Ok(v) => {
                    out.push(0xc0);
                    encode_value_into(v, &mut out);
                },
                Err(e) => {
                    encode_value_into(e, &mut out);
                    out.push(0xc0);
                },
            }
            assert(out@ =~= enc_msg(m@));
        },
        Message::Notification(note) => {
            proof {
                lemma_enc_elems3(
                    Val::Int(2),
                    Val::Str(note.method@),
                    Val::Arr(elems_view(note.params@)),
                );
            }
            out.push(0x93);
            encode_uint_into(2, &mut out);
            encode_str_into(&note.method, &mut out);
            encode_array_into(&note.params, &mut out);
            assert(out@ =~= enc_msg(m@));
        },
    }
    out
}

/// Decode one message starting at `pos`. Returns the message and the
/// position of the first byte after its frame.
#[verifier::rlimit(60)]
#[verifier::spinoff_prover]
pub fn decode_message(buf: &[u8], pos: usize) -> (r: Result<(Message, usize), DecodeError>)
    requires
        pos <= buf@.len(),
    ensures
        match r {
            Ok((m, end)) => pos < end <= buf@.len() && m@.wf() && dec_msg(buf@.skip(pos as int))
                == DecRes::Got(m@, end - pos),
            Err(e) => match e {
                DecodeError::Truncated => dec_msg(buf@.skip(pos as int)) is Truncated,
                DecodeError::Invalid => dec_msg(buf@.skip(pos as int)) is Invalid,
                DecodeError::UnknownIo => false,
            },
        },
{
    broadcast use crate::value::lemma_elems_view, crate::value::lemma_all_wf_index;

    let (v, end) = match decode_value(buf, pos) {
        Ok(ok) => ok,
        Err(e) => {
            return Err(e);
        },
    };
    proof {
        crate::codec::lemma_dec_val_props(buf@.skip(pos as int));
    }
    match v {
        Value::Arr(mut items) => {
            let ghost vs = elems_view(items@);
            if items.len() == 4 {
                let fourth = match items.pop() {
                    Some(x) => x,
                    None => {
                        return Err(DecodeError::Invalid);
                    },
                };
                let third = match items.pop() {
                    Some(x) => x,
                    None => {
                        return Err(DecodeError::Invalid);
                    },
                };
                let second = match items.pop() {
                    Some(x) => x,
                    None => {
                        return Err(DecodeError::Invalid);
                    },
                };
                let first = match items.pop() {
                    Some(x) => x,
                    None => {
                        return Err(DecodeError::Invalid);
                    },
                };
                proof {
                    assert(vs[0] == first@ && vs[1] == second@ && vs[2] == third@ && vs[3]
                        == fourth@);
                }
                let tag: i64 = match &first {
                    Value::Int(iv) => match iv.as_i64() {
                        Some(t) => t,
                        None => {
                            return Err(DecodeError::Invalid);
                        },
                    },
                    _ => {
                        return Err(DecodeError::Invalid);
                    },
                };
                if tag != 0 && tag != 1 {
                    return Err(DecodeError::Invalid);
                }
                let id: u32 = match &second {
                    Value::Int(iv) => match iv.as_i64() {
                        Some(n) => {
                            if n < 0 || n > u32::MAX as i64 {
                                return Err(DecodeError::Invalid);
                            }
                            n as u32
                        },
                        None => {
                            return Err(DecodeError::Invalid);
                        },
                    },
                    _ => {
                        return Err(DecodeError::Invalid);
                    },
                };
                if tag == 0 {
                    let method = match third {
                        Value::Str(s) => s,
                        _ => {
                            return Err(DecodeError::Invalid);
                        },
                    };
                    let params = match fourth {
                        Value::Arr(p) => p,
                        _ => {
                            return Err(DecodeError::Invalid);
                        },
                    };
                    Ok((Message::Request(Request { id, method, params }), end))
                } else {
                    let result: Result<Value, Value> = match third {
                        Value::Nil => Ok(fourth),
                        other => Err(other),
                    };
                    Ok((Message::Response(Response { id, result }), end))
                }
            } else if items.len() == 3 {
                let third = match items.pop() {
                    Some(x) => x,
                    None => {
                        return Err(DecodeError::Invalid);
                    },
                };
                let second = match items.pop() {
                    Some(x) => x,
                    None => {
                        return Err(DecodeError::Invalid);
                    },
                };
                let first = match items.pop() {
                    Some(x) => x,
                    None => {
                        return Err(DecodeError::Invalid);
                    },
                };
                proof {
                    assert(vs[0] == first@ && vs[1] == second@ && vs[2] == third@);
                }
                let tag: i64 = match &first {
                    Value::Int(iv) => match iv.as_i64() {
                        Some(t) => t,
                        None => {
                            return Err(DecodeError::Invalid);
                        },
                    },
                    _ => {
                        return Err(DecodeError::Invalid);
                    },
                };
                if tag != 2 {
                    return Err(DecodeError::Invalid);
                }
                let method = match second {
                    Value::Str(s) => s,
                    _ => {
                        return Err(DecodeError::Invalid);
                    },
                };
                let params = match third {
                    Value::Arr(p) => p,
                    _ => {
                        return Err(DecodeError::Invalid);
                    },
                };
                Ok((Message::Notification(Notification { method, params }), end))
            } else {
                Err(DecodeError::Invalid)
            }
        },
        _ => Err(DecodeError::Invalid),
    }
}

} // verus!

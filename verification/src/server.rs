//! The reference server dispatcher: a fixed method table and, per accepted
//! connection, a read buffer worked through frame by frame.
//!
//! The dispatcher keeps no correlation state: each decoded request produces
//! one response carrying the request's own id, a decoded notification is
//! handled without a reply, and a decoded response — unexpected in this role
//! — is discarded. A malformed frame terminates only the connection it
//! arrived on.

use vstd::prelude::*;

use crate::codec::DecRes;
use crate::message::{dec_msg, decode_message, enc_msg, encode_message, Message, Msg, ReqV, RespV,
    Request, Response};
use crate::value::{IntVal, Val, Value};

verus! {

use crate::value::lemma_ascii_str_wf;

/// The fixed method table: what the reference server answers to each method
/// name. Unknown names get a diagnostic error payload.
pub open spec fn method_table(method: Seq<char>) -> Result<Val, Val> {
    if method == "ping"@ {
        Ok(Val::Str("pong"@))
    } else if method == "reset"@ {
        Ok(Val::Str("ok"@))
    } else if method == "getServerVersion"@ {
        Ok(Val::Int(1))
    } else if method == "getMinRequiredClientVersion"@ {
        Ok(Val::Int(1))
    } else if method == "enableApiControl"@ {
        Ok(Val::Bool(true))
    } else if method == "setCarControls"@ {
        Ok(Val::Int(1))
    } else if method == "getCarState"@ {
        Ok(Val::Int(1))
    } else {
        Err(Val::Str("method not implemented"@))
    }
}

/// The canned response to a request: the request's own id, and the method
/// table's verdict on its method name.
pub open spec fn spec_handle_request(r: ReqV) -> RespV {
    RespV { id: r.id, result: method_table(r.method) }
}

/// What the server does with one decoded message: answer a request, stay
/// silent on a notification or a stray response.
pub open spec fn spec_handle_message(m: Msg) -> Option<RespV> {
    match m {
        Msg::Request(r) => Some(spec_handle_request(r)),
        _ => None,
    }
}

/// Every table verdict is a well-formed payload, and a diagnostic error is
/// never nil, so the answer to any request is a well-formed response.
pub proof fn lemma_handle_request_wf(r: ReqV)
    requires
        0 <= r.id <= u32::MAX as int,
    ensures
        spec_handle_request(r).wf(),
{
    reveal_strlit("ping");
    reveal_strlit("pong");
    reveal_strlit("reset");
    reveal_strlit("ok");
    reveal_strlit("method not implemented");
    lemma_ascii_str_wf("pong"@);
    lemma_ascii_str_wf("ok"@);
    lemma_ascii_str_wf("method not implemented"@);
}

/// Compare a method name with a table entry.
fn method_is(m: &String, lit: &str) -> (r: bool)
    ensures
        r == (m@ == lit@),
{
    let s = String::from_str(lit);
    m.eq(&s)
}

/// Answer one request from the method table. The response carries the
/// request's own id; an unrecognized method name yields the diagnostic
/// error payload.
pub fn handle_request(r: &Request) -> (resp: Response)
    ensures
        resp@ == spec_handle_request(r@),
        resp@.wf(),
{
    proof {
        lemma_handle_request_wf(r@);
    }
    let result: Result<Value, Value> = if method_is(&r.method, "ping") {
        Ok(Value::Str(String::from_str("pong")))
    } else if method_is(&r.method, "reset") {
        Ok(Value::Str(String::from_str("ok")))
    } else if method_is(&r.method, "getServerVersion") {
        Ok(Value::Int(IntVal::Pos(1)))
    } else if method_is(&r.method, "getMinRequiredClientVersion") {
        Ok(Value::Int(IntVal::Pos(1)))
    } else if method_is(&r.method, "enableApiControl") {
        Ok(Value::Bool(true))
    } else if method_is(&r.method, "setCarControls") {
        Ok(Value::Int(IntVal::Pos(1)))
    } else if method_is(&r.method, "getCarState") {
        Ok(Value::Int(IntVal::Pos(1)))
    } else {
        Err(Value::Str(String::from_str("method not implemented")))
    };
    Response { id: r.id, result }
}

/// Dispatch one decoded message: a request gets its response, a
/// notification is absorbed without a reply — so no response is ever sent
/// back for one — and a stray response is discarded.
pub fn handle_message(m: &Message) -> (r: Option<Response>)
    ensures
        match r {
            Some(resp) => spec_handle_message(m@) == Some(resp@) && resp@.wf(),
            None => spec_handle_message(m@) is None,
        },
{
    match m {
        Message::Request(req) => Some(handle_request(req)),
        Message::Notification(_) => None,
        Message::Response(_) => None,
    }
}

/// The models of encoded frames queued for writing, in order.
pub open spec fn writes_view(s: Seq<Vec<u8>>) -> Seq<Seq<u8>>
    decreases s,
{
    if s.len() == 0 {
        Seq::empty()
    } else {
        writes_view(s.drop_last()).push(s.last()@)
    }
}

/// Appending one frame appends its model.
proof fn lemma_writes_view_push(s: Seq<Vec<u8>>, w: Vec<u8>)
    ensures
        writes_view(s.push(w)) == writes_view(s).push(w@),
{
    assert(s.push(w).drop_last() =~= s);
    assert(s.push(w).last() == w);
}

/// The complete outcome of working through a server connection's buffer.
#[verifier::ext_equal]
pub struct ServerOut {
    /// The encoded response frames to write, in arrival order of their
    /// requests.
    pub writes: Seq<Seq<u8>>,
    /// The undecoded tail kept for the next read.
    pub buffer: Seq<u8>,
    /// Whether a malformed frame terminated the connection.
    pub closed: bool,
}

/// Decode complete frames from the head of `buffer`, answering each request
/// in arrival order, until the bytes form only a valid prefix. A malformed
/// frame terminates the connection.
pub open spec fn server_drain(buffer: Seq<u8>) -> ServerOut
    decreases buffer.len(),
{
    match dec_msg(buffer) {
        DecRes::Got(m, k) => if 1 <= k <= buffer.len() {
            // A decoded frame always consumes between one byte and the whole
            // buffer; the branch below is never reached.
            let rest = server_drain(buffer.skip(k));
            match spec_handle_message(m) {
                Some(resp) => ServerOut {
                    writes: seq![enc_msg(Msg::Response(resp))] + rest.writes,
                    buffer: rest.buffer,
                    closed: rest.closed,
                },
                None => rest,
            }
        } else {
            ServerOut { writes: Seq::empty(), buffer: Seq::empty(), closed: true }
        },
        DecRes::Truncated => ServerOut { writes: Seq::empty(), buffer, closed: false },
        DecRes::Invalid => ServerOut { writes: Seq::empty(), buffer: Seq::empty(), closed: true },
    }
}

/// Prefixing already-produced writes onto an outcome.
pub open spec fn server_join(acc: Seq<Seq<u8>>, d: ServerOut) -> ServerOut {
    ServerOut { writes: acc + d.writes, buffer: d.buffer, closed: d.closed }
}

/// One accepted connection's state: its own read buffer, nothing shared.
pub struct ServerConnection {
    buffer: Vec<u8>,
    closed: bool,
}

impl ServerConnection {
    /// The undecoded bytes kept from earlier reads.
    pub closed spec fn buffer_view(&self) -> Seq<u8> {
        self.buffer@
    }

    /// Has a malformed frame terminated this connection?
    pub closed spec fn closed_view(&self) -> bool {
        self.closed
    }

    /// State for a freshly accepted connection.
    pub fn new() -> (r: ServerConnection)
        ensures
            r.buffer_view() == Seq::<u8>::empty(),
            !r.closed_view(),
    {
        ServerConnection { buffer: Vec::new(), closed: false }
    }

    /// Has a malformed frame terminated this connection?
    pub fn is_closed(&self) -> (r: bool)
        ensures
            r == self.closed_view(),
    {
        self.closed
    }

    /// Feed bytes read from the socket; hand back the encoded response
    /// frames to write, in the order their requests arrived. The outcome is
    /// exactly [`server_drain`] of the accumulated bytes.
    #[verifier::loop_isolation(false)]
    #[verifier::rlimit(60)]
    #[verifier::spinoff_prover]
    pub fn bytes_read(&mut self, data: &[u8]) -> (writes: Vec<Vec<u8>>)
        requires
            !old(self).closed_view(),
        ensures
            ({
                let d = server_drain(old(self).buffer_view() + data@);
                &&& writes_view(writes@) == d.writes
                &&& final(self).buffer_view() == d.buffer
                &&& final(self).closed_view() == d.closed
            }),
    {
        crate::codec::push_bytes(&mut self.buffer, data);
        let ghost b0 = self.buffer@;
        let mut writes: Vec<Vec<u8>> = Vec::new();
        let mut pos: usize = 0;
        proof {
            assert(b0.skip(0) =~= b0);
            assert(writes_view(writes@) + server_drain(b0).writes =~= server_drain(b0).writes);
            assert(server_drain(b0) =~~= server_join(writes_view(writes@), server_drain(b0.skip(0))));
        }
        loop
            invariant
                pos <= self.buffer@.len(),
                self.buffer@ == b0,
                self.closed == false,
                server_drain(b0) == server_join(
                    writes_view(writes@),
                    server_drain(b0.skip(pos as int)),
                ),
            decreases b0.len() - pos,
        {
            let ghost acc = writes_view(writes@);
            match decode_message(self.buffer.as_slice(), pos) {
                Ok((m, end)) => {
                    let ghost mv = m@;
                    let ghost k = end - pos;
                    proof {
                        assert(dec_msg(b0.skip(pos as int)) == DecRes::Got(mv, k));
                        assert(1 <= k <= b0.skip(pos as int).len());
                        broadcast use crate::codec::lemma_skip_skip;

                        assert(b0.skip(pos as int).skip(k) == b0.skip(end as int));
                    }
                    match handle_message(&m) {
                        Some(resp) => {
                            let frame = encode_message(&Message::Response(resp));
                            proof {
                                lemma_writes_view_push(writes@, frame);
                                assert(server_drain(b0.skip(pos as int)) =~~= server_join(
                                    seq![frame@],
                                    server_drain(b0.skip(end as int)),
                                ));
                                assert(server_join(
                                    acc,
                                    server_join(
                                        seq![frame@],
                                        server_drain(b0.skip(end as int)),
                                    ),
                                ) =~~= server_join(
                                    acc + seq![frame@],
                                    server_drain(b0.skip(end as int)),
                                ));
                            }
                            writes.push(frame);
                            proof {
                                assert(writes_view(writes@) =~= acc + seq![frame@]);
                            }
                        },
                        None => {
                        },
                    }
                    pos = end;
                },
                Err(crate::errors::DecodeError::Truncated) => {
                    let n = self.buffer.len();
                    let tail = crate::codec::bytes_range(self.buffer.as_slice(), pos, n);
                    self.buffer = tail;
                    proof {
                        assert(acc + Seq::<Seq<u8>>::empty() =~= acc);
                        assert(self.buffer@ =~= b0.skip(pos as int));
                    }
                    return writes;
                },
                Err(crate::errors::DecodeError::Invalid) => {
                    self.buffer = Vec::new();
                    self.closed = true;
                    proof {
                        assert(acc + Seq::<Seq<u8>>::empty() =~= acc);
                    }
                    return writes;
                },
                Err(crate::errors::DecodeError::UnknownIo) => {
                    proof {
                        assert(false);
                    }
                    return writes;
                },
            }
        }
    }
}

} // verus!

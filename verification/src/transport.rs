//! The client-side multiplexing engine, as a state machine.
//!
//! One [`ClientTransport`] owns one connection's pending-call table, read
//! buffer and correlation-id allocator. The I/O shell around it owns the
//! socket and the channels; it feeds the state machine events — an outbound
//! request or notification, bytes read from the socket, the loss of the
//! connection — and performs the [`Action`]s the machine hands back: writing
//! a frame, delivering a response to the caller registered under its id,
//! passing a server push inward, or failing a pending call.
//!
//! The id→token mapping is registered *before* [`ClientTransport::send_request`]
//! returns the frame to write, so a response can never arrive ahead of its
//! table entry.

use vstd::prelude::*;

use crate::codec::DecRes;
use crate::errors::NetworkError;
use crate::idalloc::IdAllocator;
use crate::message::{
    dec_msg, decode_message, enc_msg, encode_message, Message, Msg, NotV, ReqV, Request, RespV,
    Response, Notification,
};
use crate::pending::{has_id, idx_of, token_of, unique_ids, PendingTable};
use crate::value::{all_wf, elems_view, max_len, Val, Value};

verus! {

/// What the I/O shell must do next.
pub enum Action {
    /// Put these bytes on the wire.
    Write(Vec<u8>),
    /// Resolve the call registered under `token` with this response.
    Deliver { token: u64, response: Response },
    /// A request pushed by the peer; hand it to the inbound queue.
    InboundRequest(Request),
    /// A notification pushed by the peer; hand it to the inbound queue.
    InboundNotification(Notification),
    /// A response whose id is not in the table: a protocol anomaly, logged
    /// and dropped, never fatal.
    AnomalousResponse(Response),
    /// Resolve the call registered under `token` with a transport failure.
    Fail { token: u64, error: NetworkError },
}

/// Model of an [`Action`].
#[verifier::ext_equal]
pub enum ActV {
    Write(Seq<u8>),
    Deliver { token: u64, response: RespV },
    InboundRequest(ReqV),
    InboundNotification(NotV),
    AnomalousResponse(RespV),
    Fail { token: u64, error: NetworkError },
}

impl View for Action {
    type V = ActV;

    open spec fn view(&self) -> ActV {
        match self {
            Action::Write(bytes) => ActV::Write(bytes@),
            Action::Deliver { token, response } => ActV::Deliver {
                token: *token,
                response: response@,
            },
            Action::InboundRequest(r) => ActV::InboundRequest(r@),
            Action::InboundNotification(n) => ActV::InboundNotification(n@),
            Action::AnomalousResponse(r) => ActV::AnomalousResponse(r@),
            Action::Fail { token, error } => ActV::Fail { token: *token, error: *error },
        }
    }
}

/// The models of a sequence of actions, in order.
pub open spec fn acts_view(s: Seq<Action>) -> Seq<ActV>
    decreases s,
{
    if s.len() == 0 {
        Seq::empty()
    } else {
        acts_view(s.drop_last()).push(s.last()@)
    }
}

/// How [`acts_view`] acts on each element.
pub broadcast proof fn lemma_acts_view(s: Seq<Action>)
    ensures
        (#[trigger] acts_view(s)).len() == s.len(),
        forall|i: int| 0 <= i < s.len() ==> acts_view(s)[i] == s[i]@,
    decreases s.len(),
{
    if s.len() > 0 {
        lemma_acts_view(s.drop_last());
        assert forall|i: int| 0 <= i < s.len() implies acts_view(s)[i] == s[i]@ by {
            if i < s.len() - 1 {
                assert(s.drop_last()[i] == s[i]);
            } else {
                assert(s[i] == s.last());
            }
        }
    }
}

/// Appending one action appends its model.
pub proof fn lemma_acts_view_push(s: Seq<Action>, a: Action)
    ensures
        acts_view(s.push(a)) == acts_view(s).push(a@),
{
    assert(s.push(a).drop_last() =~= s);
    assert(s.push(a).last() == a);
}

/// One failure notice per pending entry, oldest first.
pub open spec fn fail_all(pending: Seq<(u32, u64)>) -> Seq<ActV>
    decreases pending,
{
    if pending.len() == 0 {
        Seq::empty()
    } else {
        fail_all(pending.drop_last()).push(
            ActV::Fail { token: pending.last().1, error: NetworkError::Io },
        )
    }
}

/// How [`fail_all`] acts on each entry.
pub broadcast proof fn lemma_fail_all(s: Seq<(u32, u64)>)
    ensures
        (#[trigger] fail_all(s)).len() == s.len(),
        forall|i: int|
            0 <= i < s.len() ==> fail_all(s)[i] == (ActV::Fail {
                token: s[i].1,
                error: NetworkError::Io,
            }),
    decreases s.len(),
{
    if s.len() > 0 {
        lemma_fail_all(s.drop_last());
        assert forall|i: int|
            0 <= i < s.len() implies fail_all(s)[i] == (ActV::Fail {
            token: s[i].1,
            error: NetworkError::Io,
        }) by {
            if i < s.len() - 1 {
                assert(s.drop_last()[i] == s[i]);
            } else {
                assert(s[i] == s.last());
            }
        }
    }
}

/// What one decoded frame does: the actions it raises and the pending-call
/// table it leaves. A response pops its id's entry and delivers to that
/// entry's token; an unknown id is an anomaly; requests and notifications
/// pass inward and never touch the table.
pub open spec fn frame_effect(m: Msg, pending: Seq<(u32, u64)>) -> (Seq<ActV>, Seq<(u32, u64)>) {
    match m {
        Msg::Request(r) => (seq![ActV::InboundRequest(r)], pending),
        Msg::Notification(n) => (seq![ActV::InboundNotification(n)], pending),
        Msg::Response(r) => {
            let id = r.id as u32;
            if has_id(pending, id) {
                (
                    seq![ActV::Deliver { token: token_of(pending, id), response: r }],
                    pending.remove(idx_of(pending, id)),
                )
            } else {
                (seq![ActV::AnomalousResponse(r)], pending)
            }
        },
    }
}

/// The complete outcome of working through buffered bytes.
#[verifier::ext_equal]
pub struct DrainOut {
    /// The actions raised, in order.
    pub actions: Seq<ActV>,
    /// The undecoded tail kept for the next read.
    pub buffer: Seq<u8>,
    /// The pending-call table afterwards.
    pub pending: Seq<(u32, u64)>,
    /// Whether the connection was torn down by a malformed frame.
    pub closed: bool,
}

/// Decode complete frames from the head of `buffer` until the bytes form
/// only a valid prefix; each frame acts on the pending table in turn. A
/// malformed frame fails every pending call and closes the connection.
pub open spec fn drain(buffer: Seq<u8>, pending: Seq<(u32, u64)>) -> DrainOut
    decreases buffer.len(),
{
    match dec_msg(buffer) {
        DecRes::Got(m, k) => if 1 <= k <= buffer.len() {
            // A decoded frame always consumes between one byte and the whole
            // buffer; the branch below is never reached.
            let (acts, pending2) = frame_effect(m, pending);
            let rest = drain(buffer.skip(k), pending2);
            DrainOut {
                actions: acts + rest.actions,
                buffer: rest.buffer,
                pending: rest.pending,
                closed: rest.closed,
            }
        } else {
            DrainOut {
                actions: fail_all(pending),
                buffer: Seq::empty(),
                pending: Seq::empty(),
                closed: true,
            }
        },
        DecRes::Truncated => DrainOut {
            actions: Seq::empty(),
            buffer,
            pending,
            closed: false,
        },
        DecRes::Invalid => DrainOut {
            actions: fail_all(pending),
            buffer: Seq::empty(),
            pending: Seq::empty(),
            closed: true,
        },
    }
}

/// Prefixing already-raised actions onto an outcome.
pub open spec fn drain_join(acc: Seq<ActV>, d: DrainOut) -> DrainOut {
    DrainOut { actions: acc + d.actions, buffer: d.buffer, pending: d.pending, closed: d.closed }
}

/// Correlation, one frame at a time: a decoded response resolves exactly the
/// call registered under its own id — the one Deliver action pairs that
/// entry's token with this response — and removes that entry alone, so every
/// other in-flight id keeps its token.
pub proof fn lemma_correlation(pending: Seq<(u32, u64)>, r: RespV, other: u32)
    requires
        unique_ids(pending),
        0 <= r.id <= u32::MAX as int,
        has_id(pending, r.id as u32),
        other != r.id as u32,
    ensures
        frame_effect(Msg::Response(r), pending).0 == seq![
            ActV::Deliver { token: token_of(pending, r.id as u32), response: r },
        ],
        !has_id(frame_effect(Msg::Response(r), pending).1, r.id as u32),
        unique_ids(frame_effect(Msg::Response(r), pending).1),
        has_id(frame_effect(Msg::Response(r), pending).1, other) == has_id(pending, other),
        has_id(pending, other) ==> token_of(frame_effect(Msg::Response(r), pending).1, other)
            == token_of(pending, other),
{
    let id = r.id as u32;
    let k = idx_of(pending, id);
    let t = pending.remove(k);
    crate::pending::lemma_remove_preserves_others(pending, id, other);
    if has_id(t, id) {
        let j = idx_of(t, id);
        let jj = if j < k {
            j
        } else {
            j + 1
        };
        assert(t[j] == pending[jj]);
        assert(pending[jj].0 == id && pending[k].0 == id && jj != k);
        if jj < k {
            assert(pending[jj].0 != pending[k].0);
        } else {
            assert(pending[k].0 != pending[jj].0);
        }
    }
}

/// The concatenated frames of a run of responses.
pub open spec fn concat_frames(rs: Seq<RespV>) -> Seq<u8>
    decreases rs,
{
    if rs.len() == 0 {
        Seq::empty()
    } else {
        enc_msg(Msg::Response(rs[0])) + concat_frames(rs.drop_first())
    }
}

/// One delivery per response, each paired with the token registered under
/// that response's own id.
pub open spec fn deliveries(pending: Seq<(u32, u64)>, rs: Seq<RespV>) -> Seq<ActV>
    decreases rs,
{
    if rs.len() == 0 {
        Seq::empty()
    } else {
        seq![ActV::Deliver { token: token_of(pending, rs[0].id as u32), response: rs[0] }]
            + deliveries(pending, rs.drop_first())
    }
}

/// Two tables that agree on the ids of these responses produce the same
/// deliveries.
proof fn lemma_deliveries_agree(p1: Seq<(u32, u64)>, p2: Seq<(u32, u64)>, rs: Seq<RespV>)
    requires
        forall|i: int|
            0 <= i < rs.len() ==> token_of(p1, (#[trigger] rs[i]).id as u32) == token_of(
                p2,
                rs[i].id as u32,
            ),
    ensures
        deliveries(p1, rs) == deliveries(p2, rs),
    decreases rs.len(),
{
    if rs.len() > 0 {
        let rest = rs.drop_first();
        assert(forall|i: int| 0 <= i < rest.len() ==> #[trigger] rest[i] == rs[i + 1]);
        lemma_deliveries_agree(p1, p2, rest);
    }
}

/// Correlation under concurrency: with any number of calls in flight under
/// distinct ids, the responses may come back in any order — whatever order
/// their frames take on the wire, working through them resolves each call
/// with the response carrying its own id, delivered to the token that was
/// registered under that id, and tears nothing down.
pub proof fn lemma_correlated_delivery(pending: Seq<(u32, u64)>, rs: Seq<RespV>)
    requires
        unique_ids(pending),
        forall|i: int|
            0 <= i < rs.len() ==> (#[trigger] rs[i]).wf() && has_id(pending, rs[i].id as u32),
        forall|i: int, j: int|
            0 <= i < j < rs.len() ==> (#[trigger] rs[i]).id != (#[trigger] rs[j]).id,
    ensures
        drain(concat_frames(rs), pending).actions == deliveries(pending, rs),
        !drain(concat_frames(rs), pending).closed,
    decreases rs.len(),
{
    if rs.len() == 0 {
        assert(dec_msg(Seq::<u8>::empty()) is Truncated);
    } else {
        let r0 = rs[0];
        let rest = rs.drop_first();
        assert(forall|i: int| 0 <= i < rest.len() ==> #[trigger] rest[i] == rs[i + 1]);
        let m0 = Msg::Response(r0);
        let e0 = enc_msg(m0);
        let b = concat_frames(rs);
        crate::message::lemma_round_trip_msg(m0, concat_frames(rest));
        crate::codec::lemma_enc_val_len(crate::message::msg_val(m0));
        let k = e0.len() as int;
        assert(dec_msg(b) == DecRes::Got(m0, k));
        let id0 = r0.id as u32;
        let fe = frame_effect(m0, pending);
        let pending2 = pending.remove(idx_of(pending, id0));
        assert(fe.1 == pending2);
        assert(b.skip(k) =~= concat_frames(rest));
        assert forall|i: int|
            0 <= i < rest.len() implies (#[trigger] rest[i]).wf() && has_id(
            pending2,
            rest[i].id as u32,
        ) && token_of(pending2, rest[i].id as u32) == token_of(pending, rest[i].id as u32) by {
            assert(rest[i] == rs[i + 1]);
            assert(rs[0].id != rs[i + 1].id);
            lemma_correlation(pending, r0, rest[i].id as u32);
        }
        assert(unique_ids(pending2)) by {
            lemma_correlation(pending, r0, if id0 == 0 {
                1u32
            } else {
                0u32
            });
        }
        lemma_correlated_delivery(pending2, rest);
        lemma_deliveries_agree(pending2, pending, rest);
        assert(drain(b, pending).actions =~= deliveries(pending, rs));
    }
}

/// One connection's multiplexing state.
pub struct ClientTransport {
    pending: PendingTable,
    buffer: Vec<u8>,
    alloc: IdAllocator,
    closed: bool,
}

impl ClientTransport {
    /// The pending-call entries, oldest first.
    pub closed spec fn pending_entries(&self) -> Seq<(u32, u64)> {
        self.pending.view_entries()
    }

    /// The undecoded bytes kept from earlier reads.
    pub closed spec fn buffer_view(&self) -> Seq<u8> {
        self.buffer@
    }

    /// Has the connection been torn down?
    pub closed spec fn closed_view(&self) -> bool {
        self.closed
    }

    /// The next correlation id the allocator will hand out.
    pub closed spec fn next_id(&self) -> u32 {
        self.alloc.next
    }

    pub open spec fn wf(&self) -> bool {
        unique_ids(self.pending_entries())
    }

    /// A transport for a freshly established connection.
    pub fn new() -> (r: ClientTransport)
        ensures
            r.wf(),
            r.pending_entries() == Seq::<(u32, u64)>::empty(),
            r.buffer_view() == Seq::<u8>::empty(),
            !r.closed_view(),
            r.next_id() == 0,
    {
        ClientTransport {
            pending: PendingTable::new(),
            buffer: Vec::new(),
            alloc: IdAllocator::new(),
            closed: false,
        }
    }

    /// Whether a malformed frame or a reported connection loss has torn the
    /// transport down.
    pub fn is_closed(&self) -> (r: bool)
        ensures
            r == self.closed_view(),
    {
        self.closed
    }

    /// How many calls are in flight.
    pub fn pending_calls(&self) -> (r: usize)
        ensures
            r == self.pending_entries().len(),
    {
        self.pending.len()
    }

    /// Runtime check of what [`ClientTransport::send_request`] and
    /// [`ClientTransport::send_notification`] ask of their arguments, for
    /// callers outside the proof system: the method name and every parameter
    /// must be representable on the wire.
    #[verifier::loop_isolation(false)]
    pub fn call_args_wf(method: &String, params: &Vec<Value>) -> (r: bool)
        ensures
            r == (Val::Str(method@).wf() && elems_view(params@).len() <= max_len() && all_wf(
                elems_view(params@),
            )),
    {
        broadcast use crate::value::lemma_elems_view;

        if method.as_str().as_bytes().len() > 0xffff_ffff {
            return false;
        }
        if params.len() > 0xffff_ffff {
            return false;
        }
        let ghost vs = elems_view(params@);
        let n = params.len();
        let mut i: usize = 0;
        while i < n
            invariant
                i <= n,
                forall|j: int| 0 <= j < i ==> (#[trigger] vs[j]).wf(),
            decreases n - i,
        {
            if !params[i].is_wf() {
                proof {
                    assert(!all_wf(vs)) by {
                        if all_wf(vs) {
                            crate::value::lemma_all_wf_index(vs, i as int);
                        }
                    }
                }
                return false;
            }
            i = i + 1;
        }
        proof {
            crate::value::lemma_all_wf_from_index(vs);
        }
        true
    }

    /// Allocate a fresh correlation id, register `token` under it, and hand
    /// back the id with the encoded request frame to write. The table entry
    /// exists before the frame does, so a response can never beat it.
    pub fn send_request(&mut self, token: u64, method: String, params: Vec<Value>) -> (r: (
        u32,
        Vec<u8>,
    ))
        requires
            old(self).wf(),
            !old(self).closed_view(),
            Val::Str(method@).wf(),
            elems_view(params@).len() <= max_len(),
            all_wf(elems_view(params@)),
        ensures
            final(self).wf(),
            r.0 == if old(self).next_id() == u32::MAX {
                0u32
            } else {
                old(self).next_id()
            },
            final(self).next_id() == r.0 + 1,
            r.1@ == enc_msg(
                Msg::Request(ReqV { id: r.0 as int, method: method@, params: elems_view(params@) }),
            ),
            if has_id(old(self).pending_entries(), r.0) {
                final(self).pending_entries() == old(self).pending_entries().update(
                    idx_of(old(self).pending_entries(), r.0),
                    (r.0, token),
                )
            } else {
                final(self).pending_entries() == old(self).pending_entries().push((r.0, token))
            },
            has_id(final(self).pending_entries(), r.0),
            token_of(final(self).pending_entries(), r.0) == token,
            final(self).buffer_view() == old(self).buffer_view(),
            !final(self).closed_view(),
    {
        let id = self.alloc.allocate();
        self.pending.insert(id, token);
        let msg = Message::Request(Request { id, method, params });
        let bytes = encode_message(&msg);
        (id, bytes)
    }

    /// Encode a notification frame for the shell to write. Takes the
    /// transport by shared reference: a notification registers nothing in
    /// the pending-call table and can never suspend waiting for a reply.
    pub fn send_notification(&self, method: String, params: Vec<Value>) -> (r: Vec<u8>)
        requires
            Val::Str(method@).wf(),
            elems_view(params@).len() <= max_len(),
            all_wf(elems_view(params@)),
        ensures
            r@ == enc_msg(Msg::Notification(NotV { method: method@, params: elems_view(params@) })),
    {
        let msg = Message::Notification(Notification { method, params });
        encode_message(&msg)
    }

    /// Feed bytes read from the socket: append them to the read buffer, then
    /// decode and act on every complete frame already buffered. The outcome
    /// is exactly [`drain`] of the accumulated bytes.
    #[verifier::loop_isolation(false)]
    #[verifier::rlimit(60)]
    #[verifier::spinoff_prover]
    pub fn bytes_read(&mut self, data: &[u8]) -> (acts: Vec<Action>)
        requires
            old(self).wf(),
            !old(self).closed_view(),
        ensures
            final(self).wf(),
            final(self).next_id() == old(self).next_id(),
            ({
                let d = drain(old(self).buffer_view() + data@, old(self).pending_entries());
                &&& acts_view(acts@) == d.actions
                &&& final(self).buffer_view() == d.buffer
                &&& final(self).pending_entries() == d.pending
                &&& final(self).closed_view() == d.closed
            }),
    {
        crate::codec::push_bytes(&mut self.buffer, data);
        let ghost b0 = self.buffer@;
        let ghost p0 = self.pending.view_entries();
        let mut acts: Vec<Action> = Vec::new();
        let mut pos: usize = 0;
        proof {
            assert(b0.skip(0) =~= b0);
            assert(acts_view(acts@) + drain(b0, p0).actions =~= drain(b0, p0).actions);
            assert(drain(b0, p0) =~~= drain_join(acts_view(acts@), drain(b0.skip(0), p0)));
        }
        loop
            invariant
                pos <= self.buffer@.len(),
                self.buffer@ == b0,
                self.pending.wf(),
                self.alloc == old(self).alloc,
                self.closed == false,
                drain(b0, p0) == drain_join(
                    acts_view(acts@),
                    drain(b0.skip(pos as int), self.pending.view_entries()),
                ),
            decreases b0.len() - pos,
        {
            let ghost p_cur = self.pending.view_entries();
            let ghost acc = acts_view(acts@);
            match decode_message(self.buffer.as_slice(), pos) {
                Ok((m, end)) => {
                    let ghost mv = m@;
                    let ghost k = end - pos;
                    proof {
                        assert(dec_msg(b0.skip(pos as int)) == DecRes::Got(mv, k));
                        assert(1 <= k <= b0.skip(pos as int).len());
                    }
                    match m {
                        Message::Request(r) => {
                            let ghost a = ActV::InboundRequest(r@);
                            proof {
                                lemma_acts_view_push(acts@, Action::InboundRequest(r));
                                assert(frame_effect(mv, p_cur) =~~= (seq![a], p_cur));
                            }
                            acts.push(Action::InboundRequest(r));
                        },
                        Message::Notification(n) => {
                            let ghost a = ActV::InboundNotification(n@);
                            proof {
                                lemma_acts_view_push(acts@, Action::InboundNotification(n));
                                assert(frame_effect(mv, p_cur) =~~= (seq![a], p_cur));
                            }
                            acts.push(Action::InboundNotification(n));
                        },
                        Message::Response(r) => {
                            let id = r.id;
                            match self.pending.remove(id) {
                                Some(token) => {
                                    proof {
                                        lemma_acts_view_push(
                                            acts@,
                                            Action::Deliver { token, response: r },
                                        );
                                        assert(frame_effect(mv, p_cur) =~~= (
                                            seq![ActV::Deliver { token, response: r@ }],
                                            self.pending.view_entries(),
                                        ));
                                    }
                                    acts.push(Action::Deliver { token, response: r });
                                },
                                None => {
                                    proof {
                                        lemma_acts_view_push(
                                            acts@,
                                            Action::AnomalousResponse(r),
                                        );
                                        assert(frame_effect(mv, p_cur) =~~= (
                                            seq![ActV::AnomalousResponse(r@)],
                                            self.pending.view_entries(),
                                        ));
                                    }
                                    acts.push(Action::AnomalousResponse(r));
                                },
                            }
                        },
                    }
                    proof {
                        broadcast use crate::codec::lemma_skip_skip;

                        let fe = frame_effect(mv, p_cur);
                        assert(b0.skip(pos as int).skip(k) == b0.skip(end as int));
                        assert(drain(b0.skip(pos as int), p_cur) == drain_join(
                            fe.0,
                            drain(b0.skip(end as int), fe.1),
                        ));
                        assert(acts_view(acts@) =~= acc + fe.0);
                        assert(drain_join(
                            acc,
                            drain_join(fe.0, drain(b0.skip(end as int), fe.1)),
                        ) =~~= drain_join(acc + fe.0, drain(b0.skip(end as int), fe.1)));
                    }
                    pos = end;
                },
                Err(crate::errors::DecodeError::Truncated) => {
                    let n = self.buffer.len();
                    let tail = crate::codec::bytes_range(self.buffer.as_slice(), pos, n);
                    self.buffer = tail;
                    proof {
                        assert(drain(b0.skip(pos as int), p_cur) == DrainOut {
                            actions: Seq::empty(),
                            buffer: b0.skip(pos as int),
                            pending: p_cur,
                            closed: false,
                        });
                        assert(acc + Seq::<ActV>::empty() =~= acc);
                        assert(self.buffer@ =~= b0.skip(pos as int));
                    }
                    return acts;
                },
                Err(crate::errors::DecodeError::Invalid) => {
                    let dropped = self.pending.drain();
                    let n = dropped.len();
                    let mut j: usize = 0;
                    proof {
                        assert(dropped@.take(0) =~= Seq::<(u32, u64)>::empty());
                        assert(acts_view(acts@) =~= acc + fail_all(dropped@.take(0)));
                    }
                    while j < n
                        invariant
                            j <= n,
                            n == dropped@.len(),
                            acts_view(acts@) == acc + fail_all(dropped@.take(j as int)),
                        decreases n - j,
                    {
                        let token = dropped[j].1;
                        proof {
                            lemma_acts_view_push(
                                acts@,
                                Action::Fail { token, error: NetworkError::Io },
                            );
                            assert(dropped@.take(j as int + 1).drop_last() =~= dropped@.take(
                                j as int,
                            ));
                            assert(acts_view(acts@).push(
                                ActV::Fail { token, error: NetworkError::Io },
                            ) =~= acc + fail_all(dropped@.take(j as int + 1)));
                        }
                        acts.push(Action::Fail { token, error: NetworkError::Io });
                        j = j + 1;
                    }
                    self.buffer = Vec::new();
                    self.closed = true;
                    proof {
                        assert(dropped@.take(n as int) =~= dropped@);
                        assert(drain(b0.skip(pos as int), p_cur) == DrainOut {
                            actions: fail_all(p_cur),
                            buffer: Seq::empty(),
                            pending: Seq::empty(),
                            closed: true,
                        });
                        assert(acts_view(acts@) =~= acc + fail_all(p_cur));
                    }
                    return acts;
                },
                Err(crate::errors::DecodeError::UnknownIo) => {
                    proof {
                        assert(false);
                    }
                    return acts;
                },
            }
        }
    }

    /// The shell reports that the connection is gone — closed by the peer,
    /// reset, or hit by a write failure. Every pending call fails, oldest
    /// first, and the transport closes.
    #[verifier::loop_isolation(false)]
    pub fn connection_lost(&mut self) -> (acts: Vec<Action>)
        ensures
            final(self).wf(),
            acts_view(acts@) == fail_all(old(self).pending_entries()),
            final(self).pending_entries() == Seq::<(u32, u64)>::empty(),
            final(self).buffer_view() == Seq::<u8>::empty(),
            final(self).closed_view(),
            final(self).next_id() == old(self).next_id(),
    {
        let dropped = self.pending.drain();
        let n = dropped.len();
        let mut acts: Vec<Action> = Vec::new();
        let mut j: usize = 0;
        proof {
            assert(dropped@.take(0) =~= Seq::<(u32, u64)>::empty());
            assert(acts_view(acts@) =~= fail_all(dropped@.take(0)));
        }
        while j < n
            invariant
                j <= n,
                n == dropped@.len(),
                acts_view(acts@) == fail_all(dropped@.take(j as int)),
            decreases n - j,
        {
            let token = dropped[j].1;
            proof {
                lemma_acts_view_push(acts@, Action::Fail { token, error: NetworkError::Io });
                assert(dropped@.take(j as int + 1).drop_last() =~= dropped@.take(j as int));
                assert(acts_view(acts@).push(ActV::Fail { token, error: NetworkError::Io })
                    =~= fail_all(dropped@.take(j as int + 1)));
            }
            acts.push(Action::Fail { token, error: NetworkError::Io });
            j = j + 1;
        }
        self.buffer = Vec::new();
        self.closed = true;
        proof {
            assert(dropped@.take(n as int) =~= dropped@);
        }
        acts
    }
}

} // verus!

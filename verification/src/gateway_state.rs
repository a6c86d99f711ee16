//! The gateway protocol as a pure state machine: which frame answers HELLO,
//! when to heartbeat, when to RESUME rather than IDENTIFY, and which
//! sequence number and session survive each payload.
use vstd::prelude::*;

use crate::text::{opt_view, to_string_of};

verus! {

#[derive(Debug, Clone, PartialEq)]
pub enum GatewayAction {
    StartHeartbeat { interval_ms: u64 },
    SendHeartbeat,
    Identify,
    Resume { session_id: String, seq: Option<u64> },
    ReconnectResumable,
    ReconnectFull,
    Dispatch(String),
    Ignore,
}

/// The abstract value of an action.
pub enum GatewayActionView {
    StartHeartbeat { interval_ms: u64 },
    SendHeartbeat,
    Identify,
    Resume { session_id: Seq<char>, seq: Option<u64> },
    ReconnectResumable,
    ReconnectFull,
    Dispatch(Seq<char>),
    Ignore,
}

impl View for GatewayAction {
    type V = GatewayActionView;

    open spec fn view(&self) -> GatewayActionView {
        match self {
            GatewayAction::StartHeartbeat { interval_ms } => GatewayActionView::StartHeartbeat {
                interval_ms: *interval_ms,
            },
            GatewayAction::SendHeartbeat => GatewayActionView::SendHeartbeat,
            GatewayAction::Identify => GatewayActionView::Identify,
            GatewayAction::Resume { session_id, seq } => GatewayActionView::Resume {
                session_id: session_id@,
                seq: *seq,
            },
            GatewayAction::ReconnectResumable => GatewayActionView::ReconnectResumable,
            GatewayAction::ReconnectFull => GatewayActionView::ReconnectFull,
            GatewayAction::Dispatch(t) => GatewayActionView::Dispatch(t@),
            GatewayAction::Ignore => GatewayActionView::Ignore,
        }
    }
}

#[derive(Debug, Clone, Default)]
pub struct GatewayState {
    pub seq: Option<u64>,
    pub session_id: Option<String>,
    pub heartbeat_interval_ms: Option<u64>,
    pub last_ack: bool,
}

/// The abstract value of the gateway state.
pub struct GatewayStateView {
    pub seq: Option<u64>,
    pub session_id: Option<Seq<char>>,
    pub heartbeat_interval_ms: Option<u64>,
    pub last_ack: bool,
}

impl View for GatewayState {
    type V = GatewayStateView;

    open spec fn view(&self) -> GatewayStateView {
        GatewayStateView {
            seq: self.seq,
            session_id: opt_view(self.session_id),
            heartbeat_interval_ms: self.heartbeat_interval_ms,
            last_ack: self.last_ack,
        }
    }
}

/// HELLO: remember the heartbeat interval, count the connection as acknowledged.
pub open spec fn hello_step(st: GatewayStateView, interval_ms: u64) -> (
    GatewayStateView,
    GatewayActionView,
) {
    (
        GatewayStateView { heartbeat_interval_ms: Some(interval_ms), last_ack: true, ..st },
        GatewayActionView::StartHeartbeat { interval_ms },
    )
}

/// The handshake frame: RESUME when a session is known, IDENTIFY otherwise.
pub open spec fn handshake_spec(st: GatewayStateView) -> GatewayActionView {
    match st.session_id {
        Some(id) => GatewayActionView::Resume { session_id: id, seq: st.seq },
        None => GatewayActionView::Identify,
    }
}

/// The effect of one payload with opcode `op`, event name `t`, sequence
/// number `s` and, for INVALID_SESSION, whether the session can be resumed.
pub open spec fn payload_step(
    st: GatewayStateView,
    op: u8,
    t: Option<Seq<char>>,
    s: Option<u64>,
    resumable: Option<bool>,
) -> (GatewayStateView, GatewayActionView) {
    if op == 0 {
        (
            GatewayStateView {
                seq: match s {
                    Some(n) => Some(n),
                    None => st.seq,
                },
                ..st
            },
            GatewayActionView::Dispatch(
                match t {
                    Some(name) => name,
                    None => Seq::empty(),
                },
            ),
        )
    } else if op == 1 {
        (st, GatewayActionView::SendHeartbeat)
    } else if op == 7 {
        (st, GatewayActionView::ReconnectResumable)
    } else if op == 9 {
        if resumable == Some(true) {
            (st, GatewayActionView::ReconnectResumable)
        } else {
            (
                GatewayStateView { session_id: None, seq: None, ..st },
                GatewayActionView::ReconnectFull,
            )
        }
    } else if op == 11 {
        (GatewayStateView { last_ack: true, ..st }, GatewayActionView::Ignore)
    } else {
        (st, GatewayActionView::Ignore)
    }
}

impl GatewayState {
    pub fn on_hello(&mut self, interval_ms: u64) -> (r: GatewayAction)
        ensures
            (final(self)@, r@) == hello_step(old(self)@, interval_ms),
    {
        self.heartbeat_interval_ms = Some(interval_ms);
        self.last_ack = true;
        GatewayAction::StartHeartbeat { interval_ms }
    }

    pub fn handshake_action(&self) -> (r: GatewayAction)
        ensures
            r@ == handshake_spec(self@),
    {
        match &self.session_id {
            Some(id) => GatewayAction::Resume { session_id: id.clone(), seq: self.seq },
            None => GatewayAction::Identify,
        }
    }

    pub fn set_session(&mut self, id: String)
        ensures
            final(self)@ == (GatewayStateView { session_id: Some(id@), ..old(self)@ }),
    {
        self.session_id = Some(id);
    }

    pub fn on_payload(
        &mut self,
        op: u8,
        t: Option<&str>,
        s: Option<u64>,
        invalid_session_resumable: Option<bool>,
    ) -> (r: GatewayAction)
        ensures
            (final(self)@, r@) == payload_step(
                old(self)@,
                op,
                match t {
                    Some(x) => Some(x@),
                    None => None,
                },
                s,
                invalid_session_resumable,
            ),
    {
        match op {
            0 => {
                if let Some(seq) = s {
                    self.seq = Some(seq);
                }
                let name = match t {
                    Some(x) => to_string_of(x),
                    None => String::new(),
                };
                GatewayAction::Dispatch(name)
            },
            1 => GatewayAction::SendHeartbeat,
            7 => GatewayAction::ReconnectResumable,
            9 => {
                if invalid_session_resumable == Some(true) {
                    GatewayAction::ReconnectResumable
                } else {
                    self.session_id = None;
                    self.seq = None;
                    GatewayAction::ReconnectFull
                }
            },
            11 => {
                self.last_ack = true;
                GatewayAction::Ignore
            },
            _ => GatewayAction::Ignore,
        }
    }
}

/// A session set and then a dispatch received make the next handshake a
/// RESUME of that session from the dispatch's sequence number.
pub proof fn law_resume_after_dispatch(
    st: GatewayStateView,
    id: Seq<char>,
    t: Option<Seq<char>>,
    n: u64,
)
    ensures
        ({
            let st1 = GatewayStateView { session_id: Some(id), ..st };
            let st2 = payload_step(st1, 0, t, Some(n), None).0;
            handshake_spec(st2) == GatewayActionView::Resume { session_id: id, seq: Some(n) }
        }),
{
}

/// After an INVALID_SESSION that cannot be resumed, the next handshake is
/// an IDENTIFY; after one that can, the session and sequence are kept.
pub proof fn law_invalid_session(st: GatewayStateView, resumable: Option<bool>)
    ensures
        resumable != Some(true) ==> handshake_spec(payload_step(st, 9, None, None, resumable).0)
            == GatewayActionView::Identify,
        resumable == Some(true) ==> payload_step(st, 9, None, None, resumable).0 == st,
{
}

/// Only a dispatch sets the sequence number, to the one it carries, and
/// only an INVALID_SESSION clears it.
pub proof fn law_seq_only_from_dispatch(
    st: GatewayStateView,
    op: u8,
    t: Option<Seq<char>>,
    s: Option<u64>,
    resumable: Option<bool>,
)
    ensures
        ({
            let st2 = payload_step(st, op, t, s, resumable).0;
            st2.seq == st.seq || (op == 0 && st2.seq == s) || (op == 9 && st2.seq is None)
        }),
{
}

/// A call that changes the gateway state other than `set_session`: a HELLO
/// (`on_hello`) or a payload (`on_payload`). `handshake_action` changes
/// nothing.
pub enum GatewayCall {
    Hello { interval_ms: u64 },
    Payload { op: u8, t: Option<Seq<char>>, s: Option<u64>, resumable: Option<bool> },
}

/// The state after one call.
pub open spec fn call_step(st: GatewayStateView, c: GatewayCall) -> GatewayStateView {
    match c {
        GatewayCall::Hello { interval_ms } => hello_step(st, interval_ms).0,
        GatewayCall::Payload { op, t, s, resumable } => payload_step(st, op, t, s, resumable).0,
    }
}

/// The state after the calls, in order.
pub open spec fn run_calls(st: GatewayStateView, calls: Seq<GatewayCall>) -> GatewayStateView
    decreases calls.len(),
{
    if calls.len() == 0 {
        st
    } else {
        run_calls(call_step(st, calls[0]), calls.skip(1))
    }
}

/// No call but `set_session` brings a session back.
proof fn lemma_no_session_stays(st: GatewayStateView, calls: Seq<GatewayCall>)
    requires
        st.session_id is None,
    ensures
        run_calls(st, calls).session_id is None,
    decreases calls.len(),
{
    if calls.len() > 0 {
        lemma_no_session_stays(call_step(st, calls[0]), calls.skip(1));
    }
}

/// After an INVALID_SESSION that cannot be resumed, every handshake is an
/// IDENTIFY, never a RESUME of the dropped session, whatever HELLOs and
/// payloads come after it, until `set_session` records a new session.
pub proof fn law_invalid_session_identifies(
    st: GatewayStateView,
    t: Option<Seq<char>>,
    s: Option<u64>,
    resumable: Option<bool>,
    calls: Seq<GatewayCall>,
)
    requires
        resumable != Some(true),
    ensures
        handshake_spec(run_calls(payload_step(st, 9, t, s, resumable).0, calls))
            == GatewayActionView::Identify,
{
    lemma_no_session_stays(payload_step(st, 9, t, s, resumable).0, calls);
}

} // verus!

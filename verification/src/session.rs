//! One gateway connection after another, as decisions on plain values: the
//! frames to send after each payload, heartbeat tick or subscription, the
//! events to report, when to reconnect and how long to wait first. The
//! caller owns the socket and the timers.
use vstd::prelude::*;

use crate::events::{ConnectionState, Event};
use crate::gateway::{dispatch_event, dispatch_state, dispatched, next_backoff, DispatchData};
use crate::gateway_state::{
    handshake_spec, hello_step, payload_step, GatewayAction, GatewayState, GatewayStateView,
};
use crate::models::Snowflake;
use crate::text::str_eq;

verus! {

/// The first reconnection delay, and the one after each HELLO.
pub const INITIAL_BACKOFF_MS: u64 = 1000;

/// A frame the client sends on the gateway socket.
#[derive(Debug, Clone)]
pub enum Frame {
    Identify,
    Resume { session_id: String, seq: Option<u64> },
    Heartbeat(Option<u64>),
    /// Subscription to a guild's events (opcode 14).
    Subscribe(Snowflake),
}

/// The abstract value of a frame.
pub enum FrameView {
    Identify,
    Resume { session_id: Seq<char>, seq: Option<u64> },
    Heartbeat(Option<u64>),
    Subscribe(Seq<char>),
}

impl View for Frame {
    type V = FrameView;

    open spec fn view(&self) -> FrameView {
        match self {
            Frame::Identify => FrameView::Identify,
            Frame::Resume { session_id, seq } => FrameView::Resume { session_id: session_id@, seq: *seq },
            Frame::Heartbeat(s) => FrameView::Heartbeat(*s),
            Frame::Subscribe(g) => FrameView::Subscribe(g@),
        }
    }
}

/// The views of a sequence of frames.
pub open spec fn frame_views(fs: Seq<Frame>) -> Seq<FrameView> {
    fs.map_values(|f: Frame| f@)
}

/// The frame that answers HELLO: RESUME when a session is known, IDENTIFY otherwise.
pub open spec fn handshake_frame(st: GatewayStateView) -> FrameView {
    match st.session_id {
        Some(id) => FrameView::Resume { session_id: id, seq: st.seq },
        None => FrameView::Identify,
    }
}

/// A payload received on the socket, as read by the caller: its opcode,
/// event name and sequence number, the heartbeat interval of a HELLO, the
/// payload data when it is a boolean (INVALID_SESSION's "resumable"), and
/// what a dispatch carries.
pub struct Payload {
    pub op: u8,
    pub t: Option<String>,
    pub s: Option<u64>,
    pub heartbeat_interval: Option<u64>,
    pub d_bool: Option<bool>,
    pub data: DispatchData,
}

/// What the connection loop does after a payload: send these frames, in
/// order, report these events, restart the heartbeat timer with this
/// interval, and drop the connection to reconnect.
pub struct SessionStep {
    pub frames: Vec<Frame>,
    pub events: Vec<Event>,
    pub restart_heartbeat: Option<u64>,
    pub reconnect: bool,
}

/// The gateway session: the protocol state, the guilds subscribed to (kept
/// across reconnections and subscribed again after each READY), whether the
/// current connection has had its HELLO, and the next reconnection delay.
pub struct GatewaySession {
    state: GatewayState,
    subscribed: Vec<Snowflake>,
    heartbeat_started: bool,
    backoff_ms: u64,
}

/// The views of a sequence of ids.
pub open spec fn id_views(ids: Seq<String>) -> Seq<Seq<char>> {
    ids.map_values(|s: String| s@)
}

/// The subscription frames for these guilds, in order.
pub open spec fn subscribe_frames(ids: Seq<Seq<char>>) -> Seq<FrameView> {
    ids.map_values(|g: Seq<char>| FrameView::Subscribe(g))
}

impl GatewaySession {
    /// The delay stays within the cap, and no guild is subscribed twice.
    pub closed spec fn wf(&self) -> bool {
        &&& self.backoff_ms <= 30_000
        &&& forall|a: int, b: int|
            0 <= a < b < self.subscribed@.len() ==> (#[trigger] self.subscribed@[a])@ != (
            #[trigger] self.subscribed@[b])@
    }

    /// The protocol state.
    pub closed spec fn state_view(&self) -> GatewayStateView {
        self.state@
    }

    /// The guilds subscribed to, in the order of their first subscription.
    pub closed spec fn subscribed_view(&self) -> Seq<Seq<char>> {
        id_views(self.subscribed@)
    }

    /// Whether the current connection has had its HELLO.
    pub closed spec fn heartbeat_on(&self) -> bool {
        self.heartbeat_started
    }

    /// The next reconnection delay.
    pub closed spec fn backoff(&self) -> u64 {
        self.backoff_ms
    }

    /// No session, no subscription, and the first delay.
    pub fn new() -> (r: Self)
        ensures
            r.wf(),
            r.state_view() == (GatewayStateView {
                seq: None,
                session_id: None,
                heartbeat_interval_ms: None,
                last_ack: false,
            }),
            r.subscribed_view().len() == 0,
            !r.heartbeat_on(),
            r.backoff() == INITIAL_BACKOFF_MS,
    {
        GatewaySession {
            state: GatewayState { seq: None, session_id: None, heartbeat_interval_ms: None, last_ack: false },
            subscribed: Vec::new(),
            heartbeat_started: false,
            backoff_ms: INITIAL_BACKOFF_MS,
        }
    }

    /// The protocol state.
    pub fn state(&self) -> (r: &GatewayState)
        ensures
            r@ == self.state_view(),
    {
        &self.state
    }

    /// The next reconnection delay.
    pub fn backoff_ms(&self) -> (r: u64)
        ensures
            r == self.backoff(),
    {
        self.backoff_ms
    }

    /// A new connection starts: no heartbeat until its HELLO; the interface
    /// is told that the client is connecting.
    pub fn begin_connection(&mut self) -> (r: Event)
        requires
            old(self).wf(),
        ensures
            final(self).wf(),
            r == Event::Connection(ConnectionState::Connecting),
            !final(self).heartbeat_on(),
            final(self).state_view() == old(self).state_view(),
            final(self).subscribed_view() == old(self).subscribed_view(),
            final(self).backoff() == old(self).backoff(),
    {
        self.heartbeat_started = false;
        Event::Connection(ConnectionState::Connecting)
    }

    /// The connection was lost or refused: the interface is told that the
    /// client reconnects, the caller waits the returned delay, and the next
    /// delay doubles up to thirty seconds. The session and the
    /// subscriptions are kept.
    pub fn connection_lost(&mut self) -> (r: (Event, u64))
        requires
            old(self).wf(),
        ensures
            final(self).wf(),
            r.0 == Event::Connection(ConnectionState::Reconnecting),
            r.1 == old(self).backoff(),
            final(self).backoff() == if 2 * old(self).backoff() <= 30_000 {
                2 * old(self).backoff()
            } else {
                30_000
            },
            final(self).state_view() == old(self).state_view(),
            final(self).subscribed_view() == old(self).subscribed_view(),
            final(self).heartbeat_on() == old(self).heartbeat_on(),
    {
        let wait = self.backoff_ms;
        self.backoff_ms = next_backoff(self.backoff_ms);
        (Event::Connection(ConnectionState::Reconnecting), wait)
    }

    /// The heartbeat timer fired: a heartbeat with the last sequence number,
    /// once the connection has had its HELLO.
    pub fn heartbeat_tick(&self) -> (r: Option<Frame>)
        ensures
            match r {
                Some(f) => self.heartbeat_on() && f@ == FrameView::Heartbeat(self.state_view().seq),
                None => !self.heartbeat_on(),
            },
    {
        if self.heartbeat_started {
            Some(Frame::Heartbeat(self.state.seq))
        } else {
            None
        }
    }

    /// The interface asked for a guild's events: the guild is remembered
    /// (once), and subscribed to now if the connection has had its HELLO.
    pub fn subscribe(&mut self, guild_id: Snowflake) -> (r: Option<Frame>)
        requires
            old(self).wf(),
        ensures
            final(self).wf(),
            final(self).subscribed_view() == if old(self).subscribed_view().contains(guild_id@) {
                old(self).subscribed_view()
            } else {
                old(self).subscribed_view().push(guild_id@)
            },
            match r {
                Some(f) => old(self).heartbeat_on() && f@ == FrameView::Subscribe(guild_id@),
                None => !old(self).heartbeat_on(),
            },
            final(self).state_view() == old(self).state_view(),
            final(self).heartbeat_on() == old(self).heartbeat_on(),
            final(self).backoff() == old(self).backoff(),
    {
        let mut found = false;
        let mut i: usize = 0;
        while i < self.subscribed.len()
            invariant
                i <= self.subscribed@.len(),
                found <==> exists|k: int| 0 <= k < i && (#[trigger] self.subscribed@[k])@ == guild_id@,
            decreases self.subscribed@.len() - i,
        {
            if str_eq(self.subscribed[i].as_str(), guild_id.as_str()) {
                found = true;
            }
            i = i + 1;
        }
        let ghost before = self.subscribed@;
        proof {
            if found {
                let k = choose|k: int| 0 <= k < i && (#[trigger] before[k])@ == guild_id@;
                assert(id_views(before)[k] == guild_id@);
            } else if id_views(before).contains(guild_id@) {
                let k = choose|k: int| 0 <= k < id_views(before).len() && id_views(before)[k] == guild_id@;
                assert(before[k]@ == guild_id@);
            }
        }
        let frame = if self.heartbeat_started {
            Some(Frame::Subscribe(guild_id.clone()))
        } else {
            None
        };
        if !found {
            self.subscribed.push(guild_id);
            assert(id_views(self.subscribed@) == id_views(before).push(self.subscribed@.last()@));
            assert forall|a: int, b: int|
                0 <= a < b < self.subscribed@.len() implies (#[trigger] self.subscribed@[a])@ != (
            #[trigger] self.subscribed@[b])@ by {
                if b < before.len() {
                    assert(self.subscribed@[a] == before[a] && self.subscribed@[b] == before[b]);
                } else {
                    assert(self.subscribed@[a] == before[a]);
                }
            }
        }
        frame
    }

    /// The frames subscribing again to every remembered guild.
    fn resubscribe_frames(&self) -> (r: Vec<Frame>)
        ensures
            frame_views(r@) == subscribe_frames(self.subscribed_view()),
    {
        let mut out: Vec<Frame> = Vec::new();
        let mut i: usize = 0;
        while i < self.subscribed.len()
            invariant
                i <= self.subscribed@.len(),
                frame_views(out@) == subscribe_frames(id_views(self.subscribed@.take(i as int))),
            decreases self.subscribed@.len() - i,
        {
            let ghost before = out@;
            out.push(Frame::Subscribe(self.subscribed[i].clone()));
            assert(frame_views(out@) == frame_views(before).push(FrameView::Subscribe(self.subscribed@[i as int]@)));
            assert(id_views(self.subscribed@.take(i + 1)) == id_views(self.subscribed@.take(i as int)).push(
                self.subscribed@[i as int]@,
            ));
            i = i + 1;
        }
        assert(self.subscribed@.take(i as int) == self.subscribed@);
        out
    }

    /// A payload arrived. HELLO (opcode 10) starts the heartbeat at its
    /// interval when it gives one, resets the reconnection delay, and is
    /// answered by RESUME or IDENTIFY. Any other payload goes through the
    /// protocol state: a heartbeat request is answered by a heartbeat,
    /// RECONNECT and INVALID_SESSION drop the connection, and a dispatch
    /// reports its events; after READY every remembered guild is subscribed
    /// to again.
    pub fn on_payload(&mut self, p: Payload) -> (r: SessionStep)
        requires
            old(self).wf(),
        ensures
            final(self).wf(),
            final(self).subscribed_view() == old(self).subscribed_view(),
            if p.op == 10 {
                &&& final(self).state_view() == match p.heartbeat_interval {
                    Some(ms) => hello_step(old(self).state_view(), ms).0,
                    None => old(self).state_view(),
                }
                &&& frame_views(r.frames@) == seq![handshake_frame(old(self).state_view())]
                &&& r.events@.len() == 0
                &&& r.restart_heartbeat == p.heartbeat_interval
                &&& !r.reconnect
                &&& final(self).heartbeat_on() == (old(self).heartbeat_on() || p.heartbeat_interval is Some)
                &&& final(self).backoff() == if p.heartbeat_interval is Some {
                    INITIAL_BACKOFF_MS
                } else {
                    old(self).backoff()
                }
            } else {
                let t = match p.t {
                    Some(x) => Some(x@),
                    None => None,
                };
                let resumable = if p.op == 9 {
                    p.d_bool
                } else {
                    None
                };
                let (st, act) = payload_step(old(self).state_view(), p.op, t, p.s, resumable);
                &&& r.restart_heartbeat is None
                &&& final(self).heartbeat_on() == old(self).heartbeat_on()
                &&& final(self).backoff() == old(self).backoff()
                &&& match act {
                    crate::gateway_state::GatewayActionView::SendHeartbeat => {
                        &&& final(self).state_view() == st
                        &&& frame_views(r.frames@) == seq![FrameView::Heartbeat(st.seq)]
                        &&& r.events@.len() == 0
                        &&& !r.reconnect
                    },
                    crate::gateway_state::GatewayActionView::ReconnectResumable
                    | crate::gateway_state::GatewayActionView::ReconnectFull => {
                        &&& final(self).state_view() == st
                        &&& r.frames@.len() == 0
                        &&& r.events@.len() == 0
                        &&& r.reconnect
                    },
                    crate::gateway_state::GatewayActionView::Dispatch(name) => {
                        &&& final(self).state_view() == dispatch_state(st, name, p.data)
                        &&& dispatched(name, p.data, r.events@)
                        &&& frame_views(r.frames@) == if name == "READY"@ {
                            subscribe_frames(old(self).subscribed_view())
                        } else {
                            Seq::empty()
                        }
                        &&& !r.reconnect
                    },
                    _ => {
                        &&& final(self).state_view() == st
                        &&& r.frames@.len() == 0
                        &&& r.events@.len() == 0
                        &&& !r.reconnect
                    },
                }
            },
    {
        if p.op == 10 {
            let frame = match &self.state.session_id {
                Some(id) => Frame::Resume { session_id: id.clone(), seq: self.state.seq },
                None => Frame::Identify,
            };
            if let Some(ms) = p.heartbeat_interval {
                self.state.on_hello(ms);
                self.heartbeat_started = true;
                self.backoff_ms = INITIAL_BACKOFF_MS;
            }
            let mut frames: Vec<Frame> = Vec::new();
            frames.push(frame);
            assert(frame_views(frames@) == seq![frames@[0]@]);
            return SessionStep { frames, events: Vec::new(), restart_heartbeat: p.heartbeat_interval, reconnect: false };
        }
        let resumable = if p.op == 9 {
            p.d_bool
        } else {
            None
        };
        let t_ref: Option<&str> = match &p.t {
            Some(x) => Some(x.as_str()),
            None => None,
        };
        let action = self.state.on_payload(p.op, t_ref, p.s, resumable);
        match action {
            GatewayAction::SendHeartbeat => {
                let mut frames: Vec<Frame> = Vec::new();
                frames.push(Frame::Heartbeat(self.state.seq));
                assert(frame_views(frames@) == seq![frames@[0]@]);
                SessionStep { frames, events: Vec::new(), restart_heartbeat: None, reconnect: false }
            },
            GatewayAction::ReconnectResumable | GatewayAction::ReconnectFull => {
                SessionStep { frames: Vec::new(), events: Vec::new(), restart_heartbeat: None, reconnect: true }
            },
            GatewayAction::Dispatch(name) => {
                let ready = str_eq(name.as_str(), "READY");
                let events = dispatch_event(name.as_str(), p.data, &mut self.state);
                let frames = if ready {
                    self.resubscribe_frames()
                } else {
                    Vec::new()
                };
                SessionStep { frames, events, restart_heartbeat: None, reconnect: false }
            },
            _ => SessionStep { frames: Vec::new(), events: Vec::new(), restart_heartbeat: None, reconnect: false },
        }
    }
}

} // verus!

//! The session state machine and the per-connection event loop, as a step
//! function from state and event to next state and actions.
//!
//! A driver owns the physical connection: it performs the handshake send,
//! fans the inbound sources into one stream of [`NetworkEvent`]s, feeds them
//! here one at a time, and performs the returned [`SessionAction`]s.  Exactly
//! one event is processed per iteration, so no two handlers and no handler
//! and diff application ever run concurrently for one connection.  The loop's
//! governing condition is "still connected": any transition out of
//! `Connected` ends it, and [`ClientSession::finish`] then fires the
//! disconnect callback exactly once.

use vstd::prelude::*;

use crate::control::ControlFrame;
use crate::control::FrameView;
use crate::errors::ErrorView;
use crate::errors::NetworkError;
use crate::errors::TransportError;
use crate::registry::HandlerEntry;
use crate::registry::Registries;
use crate::registry::RouteOutcome;
use crate::registry::spec_route;
use crate::stats::spec_sample;
use crate::stats::NetworkStats;

verus! {

/// The session's phase.  Transitions are one-directional: `Connecting` to
/// `Connected` to `Disconnected`, never back.
#[derive(Debug)]
pub enum ClientState {
    /// Handshake under way; holds only the pending user identifier.
    Connecting { user_id: String },
    /// Handshake accepted; holds what it produced.
    Connected { user_id: String, session_info: Vec<u8> },
    /// Terminal.
    Disconnected,
}

/// The mathematical content of a [`ClientState`].
pub enum StateView {
    Connecting { user_id: Seq<char> },
    Connected { user_id: Seq<char>, session_info: Seq<u8> },
    Disconnected,
}

impl View for ClientState {
    type V = StateView;

    open spec fn view(&self) -> StateView {
        match self {
            ClientState::Connecting { user_id } => StateView::Connecting { user_id: user_id@ },
            ClientState::Connected { user_id, session_info } => StateView::Connected {
                user_id: user_id@,
                session_info: session_info@,
            },
            ClientState::Disconnected => StateView::Disconnected,
        }
    }
}

/// One inbound occurrence for the loop to process: the first of the
/// concurrently awaited sources to become ready.
#[derive(Debug)]
pub enum NetworkEvent {
    /// A control frame arrived on the dedicated control stream.
    ControlReceived { frame: ControlFrame },
    /// The statistics timer fired; carries the cumulative transport
    /// counters and the round-trip estimate read at that moment.
    StatsTick { bytes_sent_total: u64, bytes_received_total: u64, latency_ms: u64 },
    /// An unordered datagram arrived, envelope included.
    DatagramReceived { data: Vec<u8> },
    /// A peer-initiated bidirectional stream was accepted and its leading
    /// channel identifier read.
    BiStreamAccepted { id: u32 },
    /// A peer-initiated send-only stream was accepted and its leading
    /// channel identifier read.
    UniStreamAccepted { id: u32 },
    /// The next record arrived on the ordered diff stream.
    DiffReceived { diff: Vec<u8> },
    /// The transport reported closure or failure.
    TransportClosed,
}

/// The mathematical content of a [`NetworkEvent`].
pub enum EventView {
    Control { frame: FrameView },
    StatsTick { bytes_sent_total: u64, bytes_received_total: u64, latency_ms: u64 },
    Datagram { data: Seq<u8> },
    BiAccepted { id: u32 },
    UniAccepted { id: u32 },
    Diff { diff: Seq<u8> },
    TransportClosed,
}

impl View for NetworkEvent {
    type V = EventView;

    open spec fn view(&self) -> EventView {
        match self {
            NetworkEvent::ControlReceived { frame } => EventView::Control { frame: frame@ },
            NetworkEvent::StatsTick { bytes_sent_total, bytes_received_total, latency_ms } => {
                EventView::StatsTick {
                    bytes_sent_total: *bytes_sent_total,
                    bytes_received_total: *bytes_received_total,
                    latency_ms: *latency_ms,
                }
            },
            NetworkEvent::DatagramReceived { data } => EventView::Datagram { data: data@ },
            NetworkEvent::BiStreamAccepted { id } => EventView::BiAccepted { id: *id },
            NetworkEvent::UniStreamAccepted { id } => EventView::UniAccepted { id: *id },
            NetworkEvent::DiffReceived { diff } => EventView::Diff { diff: diff@ },
            NetworkEvent::TransportClosed => EventView::TransportClosed,
        }
    }
}

/// One thing the driver must perform after a step.
#[derive(Debug)]
pub enum SessionAction {
    /// Write this frame on the control send-stream.
    SendControl { frame: ControlFrame },
    /// Accept the ordered diff stream now; happens exactly once, on the
    /// transition into `Connected`.
    AcceptDiffStream,
    /// Invoke the application's on-connected callback.
    NotifyConnected,
    /// Apply this record to the shared game state, in arrival order.
    ApplyDiff { diff: Vec<u8> },
    /// Hand this payload to the datagram handler registered under `token`.
    DeliverDatagram { token: u64, payload: Vec<u8> },
    /// Hand the accepted bidirectional stream to the handler under `token`.
    DeliverBiStream { token: u64 },
    /// Hand the accepted send-only stream to the handler under `token`.
    DeliverUniStream { token: u64 },
    /// Overwrite the tracked statistics resource with this sample.
    PublishStats { stats: NetworkStats },
    /// Invoke the cleanup callback the on-connected hook returned.
    NotifyDisconnected,
}

/// The mathematical content of a [`SessionAction`].
pub enum ActionView {
    SendControl { frame: FrameView },
    AcceptDiffStream,
    NotifyConnected,
    ApplyDiff { diff: Seq<u8> },
    DeliverDatagram { token: u64, payload: Seq<u8> },
    DeliverBiStream { token: u64 },
    DeliverUniStream { token: u64 },
    PublishStats { stats: NetworkStats },
    NotifyDisconnected,
}

impl View for SessionAction {
    type V = ActionView;

    open spec fn view(&self) -> ActionView {
        match self {
            SessionAction::SendControl { frame } => ActionView::SendControl { frame: frame@ },
            SessionAction::AcceptDiffStream => ActionView::AcceptDiffStream,
            SessionAction::NotifyConnected => ActionView::NotifyConnected,
            SessionAction::ApplyDiff { diff } => ActionView::ApplyDiff { diff: diff@ },
            SessionAction::DeliverDatagram { token, payload } => ActionView::DeliverDatagram {
                token: *token,
                payload: payload@,
            },
            SessionAction::DeliverBiStream { token } => ActionView::DeliverBiStream {
                token: *token,
            },
            SessionAction::DeliverUniStream { token } => ActionView::DeliverUniStream {
                token: *token,
            },
            SessionAction::PublishStats { stats } => ActionView::PublishStats { stats: *stats },
            SessionAction::NotifyDisconnected => ActionView::NotifyDisconnected,
        }
    }
}

/// The views of a sequence of actions.
pub open spec fn acts_view(acts: Seq<SessionAction>) -> Seq<ActionView> {
    acts.map_values(|a: SessionAction| a@)
}

/// The mathematical content of a whole session.
pub struct SessionView {
    pub state: StateView,
    pub bi: Map<u32, HandlerEntry>,
    pub uni: Map<u32, HandlerEntry>,
    pub datagram: Map<u32, HandlerEntry>,
    pub stats: NetworkStats,
    pub prev_bytes_sent: u64,
    pub prev_bytes_received: u64,
    pub was_connected: bool,
    pub notified: bool,
    pub fault: Option<ErrorView>,
}

impl SessionView {
    /// Well-formedness, established by the constructor and preserved by
    /// every step: the phase, the connection history, the fault and the
    /// disconnect notification agree with one another.
    pub open spec fn wf(self) -> bool {
        &&& (self.state is Connecting ==> !self.was_connected)
        &&& (self.state is Connected ==> self.was_connected)
        &&& (self.state is Connecting || self.state is Connected ==> self.fault is None
            && !self.notified)
    }
}

/// The step taken on a control frame.
pub open spec fn step_control(s: SessionView, frame: FrameView) -> (SessionView, Seq<ActionView>) {
    match s.state {
        StateView::Connecting { user_id } => match frame {
            FrameView::Accept { session_info } => (
                SessionView {
                    state: StateView::Connected { user_id, session_info },
                    was_connected: true,
                    ..s
                },
                seq![ActionView::AcceptDiffStream, ActionView::NotifyConnected],
            ),
            FrameView::Reject { reason } => (
                SessionView {
                    state: StateView::Disconnected,
                    fault: Some(ErrorView::HandshakeRejected(reason)),
                    ..s
                },
                seq![],
            ),
            _ => (
                SessionView {
                    state: StateView::Disconnected,
                    fault: Some(ErrorView::ProtocolViolation),
                    ..s
                },
                seq![],
            ),
        },
        StateView::Connected { .. } => match frame {
            FrameView::StatsReport { latency_ms, bytes_sent, bytes_received } => {
                let pushed = NetworkStats { latency_ms, bytes_sent, bytes_received };
                (
                    SessionView { stats: pushed, ..s },
                    seq![ActionView::PublishStats { stats: pushed }],
                )
            },
            _ => (
                SessionView {
                    state: StateView::Disconnected,
                    fault: Some(ErrorView::ProtocolViolation),
                    ..s
                },
                seq![],
            ),
        },
        StateView::Disconnected => (s, seq![]),
    }
}

/// The step taken when the statistics timer fires.
pub open spec fn step_tick(s: SessionView, tx: u64, rx: u64, rtt_ms: u64) -> (
    SessionView,
    Seq<ActionView>,
) {
    if s.state is Connected {
        let sample = spec_sample(s.prev_bytes_sent, s.prev_bytes_received, tx, rx, rtt_ms);
        (
            SessionView { stats: sample, prev_bytes_sent: tx, prev_bytes_received: rx, ..s },
            seq![ActionView::PublishStats { stats: sample }],
        )
    } else {
        (s, seq![])
    }
}

/// The step taken on an inbound datagram: routed by its leading identifier;
/// a malformed or unregistered datagram is dropped, locally and non-fatally.
pub open spec fn step_datagram(s: SessionView, data: Seq<u8>) -> (SessionView, Seq<ActionView>) {
    if s.state is Connected {
        match spec_route(s.datagram, data) {
            Some(d) => (s, seq![ActionView::DeliverDatagram { token: d.0, payload: d.1 }]),
            None => (s, seq![]),
        }
    } else {
        (s, seq![])
    }
}

/// The step taken on an accepted peer-initiated stream, bidirectional or
/// send-only: its leading identifier selects the handler; a miss drops the
/// stream non-fatally.  A peer-initiated stream before the handshake is
/// complete is a protocol violation.
pub open spec fn step_stream(s: SessionView, handlers: Map<u32, HandlerEntry>, id: u32, bi: bool) -> (
    SessionView,
    Seq<ActionView>,
) {
    match s.state {
        StateView::Connected { .. } => if handlers.contains_key(id) {
            if bi {
                (s, seq![ActionView::DeliverBiStream { token: handlers[id].token }])
            } else {
                (s, seq![ActionView::DeliverUniStream { token: handlers[id].token }])
            }
        } else {
            (s, seq![])
        },
        StateView::Connecting { .. } => (
            SessionView {
                state: StateView::Disconnected,
                fault: Some(ErrorView::ProtocolViolation),
                ..s
            },
            seq![],
        ),
        StateView::Disconnected => (s, seq![]),
    }
}

/// The step taken on the next diff-stream record: applied in arrival order
/// while connected.  The diff stream exists only after the handshake, so a
/// record before that is a protocol violation.
pub open spec fn step_diff(s: SessionView, diff: Seq<u8>) -> (SessionView, Seq<ActionView>) {
    match s.state {
        StateView::Connected { .. } => (s, seq![ActionView::ApplyDiff { diff }]),
        StateView::Connecting { .. } => (
            SessionView {
                state: StateView::Disconnected,
                fault: Some(ErrorView::ProtocolViolation),
                ..s
            },
            seq![],
        ),
        StateView::Disconnected => (s, seq![]),
    }
}

/// The step taken when the transport reports closure: fatal whenever the
/// session is still alive, including before `Accept` or `Reject` arrived.
pub open spec fn step_closed(s: SessionView) -> (SessionView, Seq<ActionView>) {
    if s.state is Disconnected {
        (s, seq![])
    } else {
        (
            SessionView {
                state: StateView::Disconnected,
                fault: Some(ErrorView::Transport(TransportError::Closed)),
                ..s
            },
            seq![],
        )
    }
}

/// One iteration of the loop: what the session becomes and what the driver
/// must perform, for every state and event.
pub open spec fn step(s: SessionView, ev: EventView) -> (SessionView, Seq<ActionView>) {
    match ev {
        EventView::Control { frame } => step_control(s, frame),
        EventView::StatsTick { bytes_sent_total, bytes_received_total, latency_ms } => step_tick(
            s,
            bytes_sent_total,
            bytes_received_total,
            latency_ms,
        ),
        EventView::Datagram { data } => step_datagram(s, data),
        EventView::BiAccepted { id } => step_stream(s, s.bi, id, true),
        EventView::UniAccepted { id } => step_stream(s, s.uni, id, false),
        EventView::Diff { diff } => step_diff(s, diff),
        EventView::TransportClosed => step_closed(s),
    }
}

/// What ending the session changes: the state becomes terminal, and the
/// disconnect notification is recorded the first time a session that was
/// connected ends.
pub open spec fn spec_finish(s: SessionView) -> SessionView {
    SessionView {
        state: StateView::Disconnected,
        notified: s.notified || s.was_connected,
        ..s
    }
}

/// The actions of ending the session: the disconnect callback fires exactly
/// when the session had reached `Connected` and was not yet notified.
pub open spec fn finish_actions(s: SessionView) -> Seq<ActionView> {
    if s.was_connected && !s.notified {
        seq![ActionView::NotifyDisconnected]
    } else {
        seq![]
    }
}

/// One client session: the phase, the immutable registries, the tracked
/// statistics and the counters behind the sampler, and the session's
/// history (connected once, disconnect notified, terminal fault).
#[derive(Debug)]
pub struct ClientSession {
    state: ClientState,
    registries: Registries,
    stats: NetworkStats,
    prev_bytes_sent: u64,
    prev_bytes_received: u64,
    was_connected: bool,
    disconnect_notified: bool,
    fault: Option<NetworkError>,
}

/// The view of an optional fault.
pub open spec fn fault_view(f: Option<NetworkError>) -> Option<ErrorView> {
    match f {
        Some(e) => Some(e@),
        None => None,
    }
}

impl View for ClientSession {
    type V = SessionView;

    closed spec fn view(&self) -> SessionView {
        SessionView {
            state: self.state@,
            bi: self.registries.bi@,
            uni: self.registries.uni@,
            datagram: self.registries.datagram@,
            stats: self.stats,
            prev_bytes_sent: self.prev_bytes_sent,
            prev_bytes_received: self.prev_bytes_received,
            was_connected: self.was_connected,
            notified: self.disconnect_notified,
            fault: fault_view(self.fault),
        }
    }
}

impl ClientSession {
    /// Starts a session: the state is `Connecting` with the chosen user
    /// identifier, and the one action is to send the join request on the
    /// control stream.  The registries are fixed here for the session's
    /// lifetime.
    pub fn new(user_id: String, registries: Registries) -> (r: (Self, Vec<SessionAction>))
        ensures
            r.0@ == (SessionView {
                state: StateView::Connecting { user_id: user_id@ },
                bi: registries.bi@,
                uni: registries.uni@,
                datagram: registries.datagram@,
                stats: NetworkStats { latency_ms: 0, bytes_sent: 0, bytes_received: 0 },
                prev_bytes_sent: 0,
                prev_bytes_received: 0,
                was_connected: false,
                notified: false,
                fault: None,
            }),
            acts_view(r.1@) == seq![
                ActionView::SendControl { frame: FrameView::Connect { user_id: user_id@ } },
            ],
            r.0@.wf(),
    {
        let join = ControlFrame::Connect { user_id: user_id.clone() };
        let session = ClientSession {
            state: ClientState::Connecting { user_id },
            registries,
            stats: NetworkStats { latency_ms: 0, bytes_sent: 0, bytes_received: 0 },
            prev_bytes_sent: 0,
            prev_bytes_received: 0,
            was_connected: false,
            disconnect_notified: false,
            fault: None,
        };
        let mut acts: Vec<SessionAction> = Vec::new();
        acts.push(SessionAction::SendControl { frame: join });
        proof {
            assert(acts_view(acts@) =~= seq![
                ActionView::SendControl { frame: FrameView::Connect { user_id: user_id@ } },
            ]);
        }
        (session, acts)
    }

    /// The loop's governing condition.
    pub fn still_connected(&self) -> (r: bool)
        ensures
            r == (self@.state is Connected),
    {
        match &self.state {
            ClientState::Connected { .. } => true,
            _ => false,
        }
    }

    /// The terminal fault, if the session ended on one.
    pub fn fault(&self) -> (r: &Option<NetworkError>)
        ensures
            fault_view(*r) == self@.fault,
    {
        &self.fault
    }

    /// The most recent statistics sample.
    pub fn stats(&self) -> (r: NetworkStats)
        ensures
            r == self@.stats,
    {
        self.stats
    }

    /// Processes one event: exactly one per loop iteration, each handled to
    /// completion before the next.
    pub fn handle_event(&mut self, ev: NetworkEvent) -> (acts: Vec<SessionAction>)
        requires
            old(self)@.wf(),
        ensures
            final(self)@ == step(old(self)@, ev@).0,
            acts_view(acts@) == step(old(self)@, ev@).1,
            final(self)@.wf(),
    {
        match ev {
            NetworkEvent::ControlReceived { frame } => self.handle_control(frame),
            NetworkEvent::StatsTick { bytes_sent_total, bytes_received_total, latency_ms } => self
                .handle_tick(bytes_sent_total, bytes_received_total, latency_ms),
            NetworkEvent::DatagramReceived { data } => self.handle_datagram(data),
            NetworkEvent::BiStreamAccepted { id } => self.handle_stream(id, true),
            NetworkEvent::UniStreamAccepted { id } => self.handle_stream(id, false),
            NetworkEvent::DiffReceived { diff } => self.handle_diff(diff),
            NetworkEvent::TransportClosed => self.handle_closed(),
        }
    }

    /// Ends the session on any exit path: the state becomes terminal, and
    /// the disconnect callback fires exactly when the session had reached
    /// `Connected` and had not been notified before.
    pub fn finish(&mut self) -> (acts: Vec<SessionAction>)
        ensures
            final(self)@ == spec_finish(old(self)@),
            acts_view(acts@) == finish_actions(old(self)@),
    {
        self.state = ClientState::Disconnected;
        let mut acts: Vec<SessionAction> = Vec::new();
        if self.was_connected && !self.disconnect_notified {
            self.disconnect_notified = true;
            acts.push(SessionAction::NotifyDisconnected);
        }
        proof {
            assert(acts_view(acts@) =~= finish_actions(old(self)@));
        }
        acts
    }

    /// Fails the session with a fault.
    fn fail(&mut self, fault: NetworkError)
        ensures
            final(self)@ == (SessionView {
                state: StateView::Disconnected,
                fault: Some(fault@),
                ..old(self)@
            }),
    {
        self.state = ClientState::Disconnected;
        self.fault = Some(fault);
    }

    fn handle_control(&mut self, frame: ControlFrame) -> (acts: Vec<SessionAction>)
        requires
            old(self)@.wf(),
        ensures
            final(self)@ == step_control(old(self)@, frame@).0,
            acts_view(acts@) == step_control(old(self)@, frame@).1,
    {
        let mut taken = ClientState::Disconnected;
        core::mem::swap(&mut taken, &mut self.state);
        let mut acts: Vec<SessionAction> = Vec::new();
        match taken {
            ClientState::Connecting { user_id } => match frame {
                ControlFrame::Accept { session_info } => {
                    self.state = ClientState::Connected { user_id, session_info };
                    self.was_connected = true;
                    acts.push(SessionAction::AcceptDiffStream);
                    acts.push(SessionAction::NotifyConnected);
                    proof {
                        assert(acts_view(acts@) =~= seq![
                            ActionView::AcceptDiffStream,
                            ActionView::NotifyConnected,
                        ]);
                    }
                },
                ControlFrame::Reject { reason } => {
                    self.fail(NetworkError::HandshakeRejected(reason));
                    proof {
                        assert(acts_view(acts@) =~= Seq::<ActionView>::empty());
                    }
                },
                _ => {
                    self.fail(NetworkError::ProtocolViolation);
                    proof {
                        assert(acts_view(acts@) =~= Seq::<ActionView>::empty());
                    }
                },
            },
            ClientState::Connected { user_id, session_info } => match frame {
                ControlFrame::StatsReport { latency_ms, bytes_sent, bytes_received } => {
                    self.state = ClientState::Connected { user_id, session_info };
                    let pushed = NetworkStats { latency_ms, bytes_sent, bytes_received };
                    self.stats = pushed;
                    acts.push(SessionAction::PublishStats { stats: pushed });
                    proof {
                        assert(acts_view(acts@) =~= seq![
                            ActionView::PublishStats { stats: pushed },
                        ]);
                    }
                },
                _ => {
                    self.fail(NetworkError::ProtocolViolation);
                    proof {
                        assert(acts_view(acts@) =~= Seq::<ActionView>::empty());
                    }
                },
            },
            ClientState::Disconnected => {
                proof {
                    assert(acts_view(acts@) =~= Seq::<ActionView>::empty());
                }
            },
        }
        acts
    }

    fn handle_tick(&mut self, tx: u64, rx: u64, rtt_ms: u64) -> (acts: Vec<SessionAction>)
        requires
            old(self)@.wf(),
        ensures
            final(self)@ == step_tick(old(self)@, tx, rx, rtt_ms).0,
            acts_view(acts@) == step_tick(old(self)@, tx, rx, rtt_ms).1,
    {
        let mut acts: Vec<SessionAction> = Vec::new();
        if self.still_connected() {
            let sample = crate::stats::sample_stats(
                self.prev_bytes_sent,
                self.prev_bytes_received,
                tx,
                rx,
                rtt_ms,
            );
            self.stats = sample;
            self.prev_bytes_sent = tx;
            self.prev_bytes_received = rx;
            acts.push(SessionAction::PublishStats { stats: sample });
            proof {
                assert(acts_view(acts@) =~= seq![ActionView::PublishStats { stats: sample }]);
            }
        } else {
            proof {
                assert(acts_view(acts@) =~= Seq::<ActionView>::empty());
            }
        }
        acts
    }

    fn handle_datagram(&mut self, data: Vec<u8>) -> (acts: Vec<SessionAction>)
        requires
            old(self)@.wf(),
        ensures
            final(self)@ == step_datagram(old(self)@, data@).0,
            acts_view(acts@) == step_datagram(old(self)@, data@).1,
    {
        let mut acts: Vec<SessionAction> = Vec::new();
        if self.still_connected() {
            match self.registries.datagram.route_datagram(data.as_slice()) {
                RouteOutcome::Deliver { token, payload } => {
                    acts.push(SessionAction::DeliverDatagram { token, payload });
                    proof {
                        let d = spec_route(old(self)@.datagram, data@).unwrap();
                        assert(acts_view(acts@) =~= seq![
                            ActionView::DeliverDatagram { token: d.0, payload: d.1 },
                        ]);
                    }
                },
                RouteOutcome::UnknownChannel { .. } => {
                    proof {
                        assert(acts_view(acts@) =~= Seq::<ActionView>::empty());
                    }
                },
                RouteOutcome::Malformed => {
                    proof {
                        assert(acts_view(acts@) =~= Seq::<ActionView>::empty());
                    }
                },
            }
        } else {
            proof {
                assert(acts_view(acts@) =~= Seq::<ActionView>::empty());
            }
        }
        acts
    }

    fn handle_stream(&mut self, id: u32, bi: bool) -> (acts: Vec<SessionAction>)
        requires
            old(self)@.wf(),
        ensures
            final(self)@ == step_stream(
                old(self)@,
                if bi {
                    old(self)@.bi
                } else {
                    old(self)@.uni
                },
                id,
                bi,
            ).0,
            acts_view(acts@) == step_stream(
                old(self)@,
                if bi {
                    old(self)@.bi
                } else {
                    old(self)@.uni
                },
                id,
                bi,
            ).1,
    {
        let mut acts: Vec<SessionAction> = Vec::new();
        match &self.state {
            ClientState::Connected { .. } => {
                let found = if bi {
                    self.registries.bi.lookup(id)
                } else {
                    self.registries.uni.lookup(id)
                };
                match found {
                    Some(entry) => {
                        let token = entry.token;
                        if bi {
                            acts.push(SessionAction::DeliverBiStream { token });
                            proof {
                                assert(acts_view(acts@) =~= seq![
                                    ActionView::DeliverBiStream { token },
                                ]);
                            }
                        } else {
                            acts.push(SessionAction::DeliverUniStream { token });
                            proof {
                                assert(acts_view(acts@) =~= seq![
                                    ActionView::DeliverUniStream { token },
                                ]);
                            }
                        }
                    },
                    None => {
                        proof {
                            assert(acts_view(acts@) =~= Seq::<ActionView>::empty());
                        }
                    },
                }
            },
            ClientState::Connecting { .. } => {
                self.fail(NetworkError::ProtocolViolation);
                proof {
                    assert(acts_view(acts@) =~= Seq::<ActionView>::empty());
                }
            },
            ClientState::Disconnected => {
                proof {
                    assert(acts_view(acts@) =~= Seq::<ActionView>::empty());
                }
            },
        }
        acts
    }

    fn handle_diff(&mut self, diff: Vec<u8>) -> (acts: Vec<SessionAction>)
        requires
            old(self)@.wf(),
        ensures
            final(self)@ == step_diff(old(self)@, diff@).0,
            acts_view(acts@) == step_diff(old(self)@, diff@).1,
    {
        let mut acts: Vec<SessionAction> = Vec::new();
        match &self.state {
            ClientState::Connected { .. } => {
                let ghost d = diff@;
                acts.push(SessionAction::ApplyDiff { diff });
                proof {
                    assert(acts_view(acts@) =~= seq![ActionView::ApplyDiff { diff: d }]);
                }
            },
            ClientState::Connecting { .. } => {
                self.fail(NetworkError::ProtocolViolation);
                proof {
                    assert(acts_view(acts@) =~= Seq::<ActionView>::empty());
                }
            },
            ClientState::Disconnected => {
                proof {
                    assert(acts_view(acts@) =~= Seq::<ActionView>::empty());
                }
            },
        }
        acts
    }

    fn handle_closed(&mut self) -> (acts: Vec<SessionAction>)
        requires
            old(self)@.wf(),
        ensures
            final(self)@ == step_closed(old(self)@).0,
            acts_view(acts@) == step_closed(old(self)@).1,
    {
        let acts: Vec<SessionAction> = Vec::new();
        match &self.state {
            ClientState::Disconnected => {},
            _ => {
                self.fail(NetworkError::Transport(TransportError::Closed));
            },
        }
        proof {
            assert(acts_view(acts@) =~= Seq::<ActionView>::empty());
        }
        acts
    }
}

/// The session after a sequence of events, with everything the driver was
/// asked to perform along the way, in order.
pub open spec fn run(s: SessionView, evs: Seq<EventView>) -> (SessionView, Seq<ActionView>)
    decreases evs.len(),
{
    if evs.len() == 0 {
        (s, seq![])
    } else {
        let first = step(s, evs[0]);
        let rest = run(first.0, evs.skip(1));
        (rest.0, first.1 + rest.1)
    }
}

/// How many actions in a sequence satisfy a predicate.
pub open spec fn count_where(acts: Seq<ActionView>, pred: spec_fn(ActionView) -> bool) -> nat
    decreases acts.len(),
{
    if acts.len() == 0 {
        0
    } else {
        count_where(acts.drop_last(), pred) + if pred(acts.last()) {
            1nat
        } else {
            0nat
        }
    }
}

/// The payloads of the `ApplyDiff` actions in a sequence, in order.
pub open spec fn diffs_of_actions(acts: Seq<ActionView>) -> Seq<Seq<u8>>
    decreases acts.len(),
{
    if acts.len() == 0 {
        seq![]
    } else {
        diffs_of_actions(acts.drop_last()) + match acts.last() {
            ActionView::ApplyDiff { diff } => seq![diff],
            _ => seq![],
        }
    }
}

/// The payloads of the `Diff` events in a sequence, in order.
pub open spec fn diffs_of_events(evs: Seq<EventView>) -> Seq<Seq<u8>>
    decreases evs.len(),
{
    if evs.len() == 0 {
        seq![]
    } else {
        diffs_of_events(evs.drop_last()) + match evs.last() {
            EventView::Diff { diff } => seq![diff],
            _ => seq![],
        }
    }
}

/// Counting distributes over concatenation.
pub proof fn lemma_count_where_add(
    a: Seq<ActionView>,
    b: Seq<ActionView>,
    pred: spec_fn(ActionView) -> bool,
)
    ensures
        count_where(a + b, pred) == count_where(a, pred) + count_where(b, pred),
    decreases b.len(),
{
    if b.len() == 0 {
        assert(a + b =~= a);
    } else {
        assert((a + b).drop_last() =~= a + b.drop_last());
        lemma_count_where_add(a, b.drop_last(), pred);
    }
}

/// Collecting applied diffs distributes over concatenation.
pub proof fn lemma_diffs_of_actions_add(a: Seq<ActionView>, b: Seq<ActionView>)
    ensures
        diffs_of_actions(a + b) == diffs_of_actions(a) + diffs_of_actions(b),
    decreases b.len(),
{
    if b.len() == 0 {
        assert(a + b =~= a);
        assert(diffs_of_actions(a) + diffs_of_actions(b) =~= diffs_of_actions(a));
    } else {
        assert((a + b).drop_last() =~= a + b.drop_last());
        lemma_diffs_of_actions_add(a, b.drop_last());
        assert(diffs_of_actions(a) + diffs_of_actions(b) =~= diffs_of_actions(a)
            + diffs_of_actions(b.drop_last()) + match b.last() {
            ActionView::ApplyDiff { diff } => seq![diff],
            _ => seq![],
        });
    }
}

proof fn lemma_count_where_one(a: ActionView, pred: spec_fn(ActionView) -> bool)
    ensures
        count_where(seq![a], pred) == if pred(a) {
            1nat
        } else {
            0nat
        },
{
    reveal_with_fuel(count_where, 2);
    assert(seq![a].drop_last() =~= Seq::<ActionView>::empty());
}

proof fn lemma_count_where_two(a: ActionView, b: ActionView, pred: spec_fn(ActionView) -> bool)
    ensures
        count_where(seq![a, b], pred) == (if pred(a) {
            1nat
        } else {
            0nat
        }) + (if pred(b) {
            1nat
        } else {
            0nat
        }),
{
    reveal_with_fuel(count_where, 3);
    assert(seq![a, b].drop_last() =~= seq![a]);
    assert(seq![a].drop_last() =~= Seq::<ActionView>::empty());
}

proof fn lemma_diffs_of_actions_one(a: ActionView)
    ensures
        diffs_of_actions(seq![a]) == match a {
            ActionView::ApplyDiff { diff } => seq![diff],
            _ => Seq::<Seq<u8>>::empty(),
        },
{
    reveal_with_fuel(diffs_of_actions, 2);
    assert(seq![a].drop_last() =~= Seq::<ActionView>::empty());
    match a {
        ActionView::ApplyDiff { diff } => {
            assert(diffs_of_actions(seq![a]) =~= seq![diff]);
        },
        _ => {
            assert(diffs_of_actions(seq![a]) =~= Seq::<Seq<u8>>::empty());
        },
    }
}

proof fn lemma_diffs_of_actions_two(a: ActionView, b: ActionView)
    requires
        !(a is ApplyDiff),
        !(b is ApplyDiff),
    ensures
        diffs_of_actions(seq![a, b]) == Seq::<Seq<u8>>::empty(),
{
    reveal_with_fuel(diffs_of_actions, 3);
    assert(seq![a, b].drop_last() =~= seq![a]);
    assert(seq![a].drop_last() =~= Seq::<ActionView>::empty());
    assert(diffs_of_actions(seq![a, b]) =~= Seq::<Seq<u8>>::empty());
}

proof fn lemma_diffs_of_events_one(ev: EventView)
    ensures
        diffs_of_events(seq![ev]) == match ev {
            EventView::Diff { diff } => seq![diff],
            _ => Seq::<Seq<u8>>::empty(),
        },
{
    reveal_with_fuel(diffs_of_events, 2);
    assert(seq![ev].drop_last() =~= Seq::<EventView>::empty());
    match ev {
        EventView::Diff { diff } => {
            assert(diffs_of_events(seq![ev]) =~= seq![diff]);
        },
        _ => {
            assert(diffs_of_events(seq![ev]) =~= Seq::<Seq<u8>>::empty());
        },
    }
}

/// What any single step keeps: well-formedness, the one-directional history
/// flags, that no step ever fires the disconnect callback, and that the
/// diff stream is accepted exactly on the transition into `Connected`.
pub proof fn lemma_step_basics(s: SessionView, ev: EventView)
    requires
        s.wf(),
    ensures
        step(s, ev).0.wf(),
        s.was_connected ==> step(s, ev).0.was_connected,
        step(s, ev).0.notified == s.notified,
        count_where(step(s, ev).1, |a: ActionView| a is NotifyDisconnected) == 0,
        count_where(step(s, ev).1, |a: ActionView| a is AcceptDiffStream) == if !s.was_connected
            && step(s, ev).0.was_connected {
            1nat
        } else {
            0nat
        },
        s.state is Disconnected ==> step(s, ev).0 == s && step(s, ev).1 == Seq::<
            ActionView,
        >::empty(),
{
    let (t, acts) = step(s, ev);
    let is_notify = |a: ActionView| a is NotifyDisconnected;
    let is_accept = |a: ActionView| a is AcceptDiffStream;
    match ev {
        EventView::Control { frame } => {
            match s.state {
                StateView::Connecting { .. } => match frame {
                    FrameView::Accept { .. } => {
                        lemma_count_where_two(
                            ActionView::AcceptDiffStream,
                            ActionView::NotifyConnected,
                            is_notify,
                        );
                        lemma_count_where_two(
                            ActionView::AcceptDiffStream,
                            ActionView::NotifyConnected,
                            is_accept,
                        );
                    },
                    _ => {},
                },
                StateView::Connected { .. } => match frame {
                    FrameView::StatsReport { .. } => {
                        let pushed = t.stats;
                        lemma_count_where_one(ActionView::PublishStats { stats: pushed }, is_notify);
                        lemma_count_where_one(ActionView::PublishStats { stats: pushed }, is_accept);
                    },
                    _ => {},
                },
                StateView::Disconnected => {},
            }
        },
        EventView::StatsTick { .. } => {
            if s.state is Connected {
                let sample = t.stats;
                lemma_count_where_one(ActionView::PublishStats { stats: sample }, is_notify);
                lemma_count_where_one(ActionView::PublishStats { stats: sample }, is_accept);
            }
        },
        EventView::Datagram { data } => {
            if s.state is Connected {
                match spec_route(s.datagram, data) {
                    Some(d) => {
                        lemma_count_where_one(
                            ActionView::DeliverDatagram { token: d.0, payload: d.1 },
                            is_notify,
                        );
                        lemma_count_where_one(
                            ActionView::DeliverDatagram { token: d.0, payload: d.1 },
                            is_accept,
                        );
                    },
                    None => {},
                }
            }
        },
        EventView::BiAccepted { id } => {
            if s.state is Connected && s.bi.contains_key(id) {
                lemma_count_where_one(
                    ActionView::DeliverBiStream { token: s.bi[id].token },
                    is_notify,
                );
                lemma_count_where_one(
                    ActionView::DeliverBiStream { token: s.bi[id].token },
                    is_accept,
                );
            }
        },
        EventView::UniAccepted { id } => {
            if s.state is Connected && s.uni.contains_key(id) {
                lemma_count_where_one(
                    ActionView::DeliverUniStream { token: s.uni[id].token },
                    is_notify,
                );
                lemma_count_where_one(
                    ActionView::DeliverUniStream { token: s.uni[id].token },
                    is_accept,
                );
            }
        },
        EventView::Diff { diff } => {
            if s.state is Connected {
                lemma_count_where_one(ActionView::ApplyDiff { diff }, is_notify);
                lemma_count_where_one(ActionView::ApplyDiff { diff }, is_accept);
            }
        },
        EventView::TransportClosed => {},
    }
}

/// What any whole run keeps: well-formedness, the one-directional history
/// flags, that the loop itself never fires the disconnect callback, and
/// that the diff stream is accepted exactly once on the way into
/// `Connected` and never again.
pub proof fn lemma_run_basics(s: SessionView, evs: Seq<EventView>)
    requires
        s.wf(),
    ensures
        run(s, evs).0.wf(),
        s.was_connected ==> run(s, evs).0.was_connected,
        run(s, evs).0.notified == s.notified,
        count_where(run(s, evs).1, |a: ActionView| a is NotifyDisconnected) == 0,
        count_where(run(s, evs).1, |a: ActionView| a is AcceptDiffStream) == if !s.was_connected
            && run(s, evs).0.was_connected {
            1nat
        } else {
            0nat
        },
    decreases evs.len(),
{
    let is_notify = |a: ActionView| a is NotifyDisconnected;
    let is_accept = |a: ActionView| a is AcceptDiffStream;
    if evs.len() == 0 {
    } else {
        let first = step(s, evs[0]);
        lemma_step_basics(s, evs[0]);
        lemma_run_basics(first.0, evs.skip(1));
        lemma_count_where_add(first.1, run(first.0, evs.skip(1)).1, is_notify);
        lemma_count_where_add(first.1, run(first.0, evs.skip(1)).1, is_accept);
    }
}

/// A run from a terminal session changes nothing and performs nothing.
pub proof fn lemma_run_from_disconnected(s: SessionView, evs: Seq<EventView>)
    requires
        s.wf(),
        s.state is Disconnected,
    ensures
        run(s, evs).0 == s,
        run(s, evs).1 == Seq::<ActionView>::empty(),
    decreases evs.len(),
{
    if evs.len() == 0 {
    } else {
        lemma_step_basics(s, evs[0]);
        lemma_run_from_disconnected(s, evs.skip(1));
        assert(run(s, evs).1 =~= Seq::<ActionView>::empty());
    }
}

/// Running a concatenation is running the parts in order.
pub proof fn lemma_run_append(s: SessionView, a: Seq<EventView>, b: Seq<EventView>)
    ensures
        run(s, a + b).0 == run(run(s, a).0, b).0,
        run(s, a + b).1 == run(s, a).1 + run(run(s, a).0, b).1,
    decreases a.len(),
{
    if a.len() == 0 {
        assert(a + b =~= b);
        assert(run(s, a).1 + run(run(s, a).0, b).1 =~= run(s, b).1);
    } else {
        let first = step(s, a[0]);
        assert((a + b).skip(1) =~= a.skip(1) + b);
        lemma_run_append(first.0, a.skip(1), b);
        assert(run(s, a + b).1 =~= run(s, a).1 + run(run(s, a).0, b).1);
    }
}

/// A rejected handshake is final: from `Connecting`, a `Reject { reason }`
/// frame moves the session to `Disconnected`, the surfaced fault is
/// `HandshakeRejected` carrying that reason, and whatever arrives
/// afterwards, the session never reaches `Connected` and nothing further is
/// performed.
pub proof fn lemma_reject_disconnects_for_good(
    s: SessionView,
    reason: Seq<char>,
    rest: Seq<EventView>,
)
    requires
        s.wf(),
        s.state is Connecting,
    ensures
        ({
            let rejected = step(s, EventView::Control { frame: FrameView::Reject { reason } });
            let outcome = run(rejected.0, rest);
            &&& rejected.0.state is Disconnected
            &&& rejected.0.fault == Some(ErrorView::HandshakeRejected(reason))
            &&& rejected.1 == Seq::<ActionView>::empty()
            &&& outcome.0 == rejected.0
            &&& outcome.1 == Seq::<ActionView>::empty()
            &&& !outcome.0.was_connected
        }),
{
    let rejected = step(s, EventView::Control { frame: FrameView::Reject { reason } });
    lemma_step_basics(s, EventView::Control { frame: FrameView::Reject { reason } });
    lemma_run_from_disconnected(rejected.0, rest);
}

/// The diff stream is accepted exactly once per session: a run from the
/// start of the handshake emits `AcceptDiffStream` exactly once when it
/// reaches `Connected`, and never otherwise.
pub proof fn lemma_diff_stream_accepted_exactly_once(s: SessionView, evs: Seq<EventView>)
    requires
        s.wf(),
        s.state is Connecting,
    ensures
        count_where(run(s, evs).1, |a: ActionView| a is AcceptDiffStream) == if run(
            s,
            evs,
        ).0.was_connected {
            1nat
        } else {
            0nat
        },
{
    lemma_run_basics(s, evs);
}

/// A second `Accept` after the session is connected is a protocol
/// violation: it ends the session at once and accepts no further diff
/// stream.
pub proof fn lemma_second_accept_is_violation(s: SessionView, session_info: Seq<u8>)
    requires
        s.wf(),
        s.state is Connected,
    ensures
        ({
            let second = step(s, EventView::Control { frame: FrameView::Accept { session_info } });
            &&& second.0.state is Disconnected
            &&& second.0.fault == Some(ErrorView::ProtocolViolation)
            &&& second.1 == Seq::<ActionView>::empty()
        }),
{
}

/// Where a phase stands along the one-directional life of a session.
pub open spec fn phase_rank(s: StateView) -> int {
    match s {
        StateView::Connecting { .. } => 0,
        StateView::Connected { .. } => 1,
        StateView::Disconnected => 2,
    }
}

/// Transitions are one-directional and monotonic: no step moves the session
/// back towards an earlier phase, so no phase is ever revisited.
pub proof fn lemma_transitions_monotonic(s: SessionView, ev: EventView)
    requires
        s.wf(),
    ensures
        phase_rank(step(s, ev).0.state) >= phase_rank(s.state),
{
}

/// The session identity is immutable: chosen before the handshake and never
/// renegotiated, the user identifier survives every step that leaves the
/// session alive.
pub proof fn lemma_user_id_immutable(s: SessionView, ev: EventView)
    requires
        s.wf(),
    ensures
        ({
            let next = step(s, ev).0.state;
            match (s.state, next) {
                (
                    StateView::Connecting { user_id: before },
                    StateView::Connecting { user_id: after },
                ) => after == before,
                (
                    StateView::Connecting { user_id: before },
                    StateView::Connected { user_id: after, .. },
                ) => after == before,
                (
                    StateView::Connected { user_id: before, .. },
                    StateView::Connected { user_id: after, .. },
                ) => after == before,
                _ => true,
            }
        }),
{
}

/// Whether an event leaves a connected session connected.
pub open spec fn keeps_connected(ev: EventView) -> bool {
    match ev {
        EventView::Control { frame } => frame is StatsReport,
        EventView::TransportClosed => false,
        _ => true,
    }
}

/// Diffs are applied in arrival order: over any stretch of the loop in
/// which the session stays connected, the applied diffs are exactly the
/// arrived diff records, in the same order, however datagrams, inbound
/// streams, timer ticks and stats frames interleave with them.
pub proof fn lemma_diffs_applied_in_arrival_order(s: SessionView, evs: Seq<EventView>)
    requires
        s.wf(),
        s.state is Connected,
        forall|i: int| 0 <= i < evs.len() ==> keeps_connected(#[trigger] evs[i]),
    ensures
        run(s, evs).0.state is Connected,
        diffs_of_actions(run(s, evs).1) == diffs_of_events(evs),
    decreases evs.len(),
{
    if evs.len() == 0 {
        assert(diffs_of_events(evs) =~= Seq::<Seq<u8>>::empty());
    } else {
        let first = step(s, evs[0]);
        lemma_step_basics(s, evs[0]);
        assert(first.0.state is Connected) by {
            match evs[0] {
                EventView::Control { frame } => {},
                _ => {},
            }
        }
        assert(diffs_of_actions(first.1) == (match evs[0] {
            EventView::Diff { diff } => seq![diff],
            _ => Seq::<Seq<u8>>::empty(),
        })) by {
            match evs[0] {
                EventView::Control { frame } => {
                    lemma_diffs_of_actions_one(ActionView::PublishStats { stats: first.0.stats });
                },
                EventView::StatsTick { .. } => {
                    lemma_diffs_of_actions_one(ActionView::PublishStats { stats: first.0.stats });
                },
                EventView::Datagram { data } => {
                    match spec_route(s.datagram, data) {
                        Some(d) => {
                            lemma_diffs_of_actions_one(
                                ActionView::DeliverDatagram { token: d.0, payload: d.1 },
                            );
                        },
                        None => {},
                    }
                },
                EventView::BiAccepted { id } => {
                    if s.bi.contains_key(id) {
                        lemma_diffs_of_actions_one(
                            ActionView::DeliverBiStream { token: s.bi[id].token },
                        );
                    }
                },
                EventView::UniAccepted { id } => {
                    if s.uni.contains_key(id) {
                        lemma_diffs_of_actions_one(
                            ActionView::DeliverUniStream { token: s.uni[id].token },
                        );
                    }
                },
                EventView::Diff { diff } => {
                    lemma_diffs_of_actions_one(ActionView::ApplyDiff { diff });
                },
                EventView::TransportClosed => {},
            }
        }
        lemma_diffs_applied_in_arrival_order(first.0, evs.skip(1));
        lemma_diffs_of_actions_add(first.1, run(first.0, evs.skip(1)).1);
        assert(evs =~= seq![evs[0]] + evs.skip(1));
        lemma_diffs_of_events_append_one(evs[0], evs.skip(1));
        lemma_diffs_of_events_one(evs[0]);
    }
}

/// Splitting the first event off a sequence splits its diffs.
proof fn lemma_diffs_of_events_append_one(ev: EventView, rest: Seq<EventView>)
    ensures
        diffs_of_events(seq![ev] + rest) == diffs_of_events(seq![ev]) + diffs_of_events(rest),
    decreases rest.len(),
{
    if rest.len() == 0 {
        assert(seq![ev] + rest =~= seq![ev]);
        assert(diffs_of_events(seq![ev]) + diffs_of_events(rest) =~= diffs_of_events(seq![ev]));
    } else {
        assert((seq![ev] + rest).drop_last() =~= seq![ev] + rest.drop_last());
        lemma_diffs_of_events_append_one(ev, rest.drop_last());
        assert(diffs_of_events(seq![ev] + rest) =~= diffs_of_events(seq![ev]) + diffs_of_events(
            rest,
        ));
    }
}

/// The disconnect callback fires exactly once on any exit path: from a
/// connected session, the loop itself never fires it, and the cleanup that
/// follows the loop fires it exactly once — never zero times, never twice.
pub proof fn lemma_disconnect_notified_exactly_once(s: SessionView, evs: Seq<EventView>)
    requires
        s.wf(),
        s.state is Connected,
    ensures
        count_where(
            run(s, evs).1 + finish_actions(run(s, evs).0),
            |a: ActionView| a is NotifyDisconnected,
        ) == 1,
{
    let is_notify = |a: ActionView| a is NotifyDisconnected;
    lemma_run_basics(s, evs);
    let t = run(s, evs).0;
    lemma_count_where_one(ActionView::NotifyDisconnected, is_notify);
    lemma_count_where_add(run(s, evs).1, finish_actions(t), is_notify);
}

/// Forced transport closure mid-loop is fatal: after any stretch that keeps
/// the session connected, the closure ends the loop with
/// `Transport(Closed)` as the surfaced fault.
pub proof fn lemma_forced_closure_is_fatal(s: SessionView, evs: Seq<EventView>)
    requires
        s.wf(),
        s.state is Connected,
        forall|i: int| 0 <= i < evs.len() ==> keeps_connected(#[trigger] evs[i]),
    ensures
        ({
            let t = run(s, evs + seq![EventView::TransportClosed]).0;
            &&& t.state is Disconnected
            &&& t.fault == Some(ErrorView::Transport(TransportError::Closed))
        }),
{
    lemma_diffs_applied_in_arrival_order(s, evs);
    lemma_run_basics(s, evs);
    lemma_run_append(s, evs, seq![EventView::TransportClosed]);
    reveal_with_fuel(run, 2);
    assert(seq![EventView::TransportClosed].skip(1) =~= Seq::<EventView>::empty());
}

} // verus!

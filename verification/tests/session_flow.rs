use client_core::control::ControlFrame;
use client_core::envelope::encode_envelope;
use client_core::errors::NetworkError;
use client_core::errors::TransportError;
use client_core::registry::Registries;
use client_core::session::ClientSession;
use client_core::session::NetworkEvent;
use client_core::session::SessionAction;
use client_core::stats::NetworkStats;

fn registries() -> Registries {
    let mut registries = Registries::new();
    assert!(registries.datagram.register(10, String::from("input"), 100));
    assert!(registries.bi.register(20, String::from("query"), 200));
    assert!(registries.uni.register(30, String::from("notify"), 300));
    registries
}

fn connected_session() -> ClientSession {
    let (mut session, _) = ClientSession::new(String::from("alice"), registries());
    let accept = NetworkEvent::ControlReceived {
        frame: ControlFrame::Accept { session_info: vec![1] },
    };
    session.handle_event(accept);
    assert!(session.still_connected());
    session
}

#[test]
fn handshake_starts_with_a_join_request() {
    let (session, actions) = ClientSession::new(String::from("alice"), registries());
    assert!(!session.still_connected());
    assert_eq!(actions.len(), 1);
    match &actions[0] {
        SessionAction::SendControl { frame: ControlFrame::Connect { user_id } } => {
            assert_eq!(user_id, "alice");
        },
        other => panic!("expected the join request, got {:?}", other),
    }
}

#[test]
fn accept_connects_once_and_accepts_one_diff_stream() {
    let (mut session, _) = ClientSession::new(String::from("alice"), registries());
    let actions = session.handle_event(NetworkEvent::ControlReceived {
        frame: ControlFrame::Accept { session_info: vec![9, 9] },
    });
    assert!(session.still_connected());
    assert!(matches!(actions[0], SessionAction::AcceptDiffStream));
    assert!(matches!(actions[1], SessionAction::NotifyConnected));
    assert_eq!(actions.len(), 2);
}

#[test]
fn second_accept_is_a_protocol_violation() {
    let mut session = connected_session();
    let actions = session.handle_event(NetworkEvent::ControlReceived {
        frame: ControlFrame::Accept { session_info: vec![2] },
    });
    assert!(actions.is_empty());
    assert!(!session.still_connected());
    assert_eq!(*session.fault(), Some(NetworkError::ProtocolViolation));
}

#[test]
fn reject_surfaces_the_reason_and_never_connects() {
    let (mut session, _) = ClientSession::new(String::from("alice"), registries());
    let actions = session.handle_event(NetworkEvent::ControlReceived {
        frame: ControlFrame::Reject { reason: String::from("server full") },
    });
    assert!(actions.is_empty());
    assert!(!session.still_connected());
    assert_eq!(
        *session.fault(),
        Some(NetworkError::HandshakeRejected(String::from("server full")))
    );
    // The session never reached `Connected`, so there is no cleanup callback.
    let cleanup = session.finish();
    assert!(cleanup.is_empty());
}

#[test]
fn handshake_frame_other_than_accept_or_reject_is_fatal() {
    let (mut session, _) = ClientSession::new(String::from("alice"), registries());
    session.handle_event(NetworkEvent::ControlReceived {
        frame: ControlFrame::StatsReport { latency_ms: 1, bytes_sent: 2, bytes_received: 3 },
    });
    assert_eq!(*session.fault(), Some(NetworkError::ProtocolViolation));
}

#[test]
fn diffs_are_applied_in_arrival_order_despite_interleaving() {
    let mut session = connected_session();
    let d1 = vec![1u8];
    let d2 = vec![2u8];
    let d3 = vec![3u8];
    let events = vec![
        NetworkEvent::DiffReceived { diff: d1.clone() },
        NetworkEvent::DatagramReceived { data: encode_envelope(10, &[7]) },
        NetworkEvent::DiffReceived { diff: d2.clone() },
        NetworkEvent::StatsTick { bytes_sent_total: 50, bytes_received_total: 5, latency_ms: 1 },
        NetworkEvent::BiStreamAccepted { id: 20 },
        NetworkEvent::DiffReceived { diff: d3.clone() },
    ];
    let mut applied = Vec::new();
    for event in events {
        for action in session.handle_event(event) {
            if let SessionAction::ApplyDiff { diff } = action {
                applied.push(diff);
            }
        }
    }
    assert_eq!(applied, vec![d1, d2, d3]);
    assert!(session.still_connected());
}

#[test]
fn datagrams_and_streams_route_by_their_id_while_connected() {
    let mut session = connected_session();
    let actions = session.handle_event(NetworkEvent::DatagramReceived {
        data: encode_envelope(10, &[42]),
    });
    assert!(matches!(
        &actions[..],
        [SessionAction::DeliverDatagram { token: 100, payload }] if payload == &vec![42]
    ));
    let actions = session.handle_event(NetworkEvent::BiStreamAccepted { id: 20 });
    assert!(matches!(&actions[..], [SessionAction::DeliverBiStream { token: 200 }]));
    let actions = session.handle_event(NetworkEvent::UniStreamAccepted { id: 30 });
    assert!(matches!(&actions[..], [SessionAction::DeliverUniStream { token: 300 }]));
}

#[test]
fn unknown_channels_and_malformed_datagrams_are_skipped_non_fatally() {
    let mut session = connected_session();
    assert!(session
        .handle_event(NetworkEvent::DatagramReceived { data: encode_envelope(99, &[1]) })
        .is_empty());
    assert!(session.handle_event(NetworkEvent::DatagramReceived { data: vec![0] }).is_empty());
    assert!(session.handle_event(NetworkEvent::BiStreamAccepted { id: 99 }).is_empty());
    assert!(session.handle_event(NetworkEvent::UniStreamAccepted { id: 99 }).is_empty());
    assert!(session.still_connected());
}

#[test]
fn diff_before_connected_is_a_protocol_violation() {
    let (mut session, _) = ClientSession::new(String::from("alice"), registries());
    let actions = session.handle_event(NetworkEvent::DiffReceived { diff: vec![1] });
    assert!(actions.is_empty());
    assert_eq!(*session.fault(), Some(NetworkError::ProtocolViolation));
}

#[test]
fn stats_sample_is_counter_delta_over_the_interval() {
    let mut session = connected_session();
    let actions = session.handle_event(NetworkEvent::StatsTick {
        bytes_sent_total: 5000,
        bytes_received_total: 2500,
        latency_ms: 17,
    });
    let expected = NetworkStats { latency_ms: 17, bytes_sent: 1000, bytes_received: 500 };
    assert!(matches!(&actions[..], [SessionAction::PublishStats { stats }] if *stats == expected));
    assert_eq!(session.stats(), expected);
    // The next interval rates only the new bytes.
    let actions = session.handle_event(NetworkEvent::StatsTick {
        bytes_sent_total: 6000,
        bytes_received_total: 2500,
        latency_ms: 25,
    });
    let expected = NetworkStats { latency_ms: 25, bytes_sent: 200, bytes_received: 0 };
    assert!(matches!(&actions[..], [SessionAction::PublishStats { stats }] if *stats == expected));
}

#[test]
fn pushed_stats_report_overwrites_the_resource() {
    let mut session = connected_session();
    let actions = session.handle_event(NetworkEvent::ControlReceived {
        frame: ControlFrame::StatsReport { latency_ms: 9, bytes_sent: 8, bytes_received: 7 },
    });
    let expected = NetworkStats { latency_ms: 9, bytes_sent: 8, bytes_received: 7 };
    assert!(matches!(&actions[..], [SessionAction::PublishStats { stats }] if *stats == expected));
    assert_eq!(session.stats(), expected);
    assert!(session.still_connected());
}

#[test]
fn forced_closure_fires_the_disconnect_callback_exactly_once() {
    let mut session = connected_session();
    session.handle_event(NetworkEvent::DiffReceived { diff: vec![1] });
    let actions = session.handle_event(NetworkEvent::TransportClosed);
    assert!(actions.is_empty());
    assert!(!session.still_connected());
    assert_eq!(*session.fault(), Some(NetworkError::Transport(TransportError::Closed)));
    let cleanup = session.finish();
    assert!(matches!(&cleanup[..], [SessionAction::NotifyDisconnected]));
    // A second cleanup pass must not fire the callback again.
    assert!(session.finish().is_empty());
}

#[test]
fn closure_before_accept_is_a_transport_fault() {
    let (mut session, _) = ClientSession::new(String::from("alice"), registries());
    session.handle_event(NetworkEvent::TransportClosed);
    assert_eq!(*session.fault(), Some(NetworkError::Transport(TransportError::Closed)));
    assert!(session.finish().is_empty());
}

#[test]
fn events_after_the_end_do_nothing() {
    let mut session = connected_session();
    session.handle_event(NetworkEvent::TransportClosed);
    assert!(session.handle_event(NetworkEvent::DiffReceived { diff: vec![1] }).is_empty());
    assert!(session
        .handle_event(NetworkEvent::ControlReceived {
            frame: ControlFrame::Accept { session_info: vec![] },
        })
        .is_empty());
    assert_eq!(*session.fault(), Some(NetworkError::Transport(TransportError::Closed)));
}

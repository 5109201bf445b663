use client_core::envelope::encode_envelope;
use client_core::registry::HandlerRegistry;
use client_core::registry::RouteOutcome;

fn registry_with(entries: &[(u32, &str, u64)]) -> HandlerRegistry {
    let mut registry = HandlerRegistry::new();
    for (id, name, token) in entries {
        assert!(registry.register(*id, String::from(*name), *token));
    }
    registry
}

#[test]
fn each_datagram_reaches_the_handler_of_its_leading_id() {
    let registry = registry_with(&[(10, "input", 100), (20, "voice", 200), (30, "ping", 300)]);
    for (id, token) in [(10u32, 100u64), (20, 200), (30, 300)] {
        let datagram = encode_envelope(id, &[1, 2, 3]);
        match registry.route_datagram(&datagram) {
            RouteOutcome::Deliver { token: delivered, payload } => {
                assert_eq!(delivered, token);
                assert_eq!(payload, vec![1, 2, 3]);
            },
            other => panic!("expected delivery, got {:?}", other),
        }
    }
}

#[test]
fn unregistered_id_is_dropped_not_delivered() {
    let registry = registry_with(&[(10, "input", 100)]);
    let datagram = encode_envelope(11, &[5]);
    assert_eq!(registry.route_datagram(&datagram), RouteOutcome::UnknownChannel { id: 11 });
}

#[test]
fn short_datagram_is_malformed() {
    let registry = registry_with(&[(10, "input", 100)]);
    assert_eq!(registry.route_datagram(&[0, 0]), RouteOutcome::Malformed);
}

#[test]
fn duplicate_registration_is_refused_and_keeps_the_first_handler() {
    let mut registry = HandlerRegistry::new();
    assert!(registry.register(10, String::from("first"), 1));
    assert!(!registry.register(10, String::from("second"), 2));
    assert_eq!(registry.len(), 1);
    let entry = registry.lookup(10).unwrap();
    assert_eq!(entry.name, "first");
    assert_eq!(entry.token, 1);
    assert!(registry.lookup(11).is_none());
}

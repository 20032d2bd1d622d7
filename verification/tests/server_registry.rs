//! The server-side registry and its per-tick poll bridge.

use webtick::codec::encode;
use webtick::codec::AppMessage;
use webtick::codec::DecodeError;
use webtick::registry::ConnectionEvent;
use webtick::registry::Registry;
use webtick::registry::ServerSendPacket;
use webtick::registry::WebServerSettings;

#[test]
fn default_port_is_8080() {
    let settings = WebServerSettings::default();
    assert_eq!(settings.port, 8080);
}

#[test]
fn duplicate_identity_is_refused() {
    let mut reg = Registry::new(16);
    assert!(reg.insert_with_id(7));
    assert!(!reg.insert_with_id(7));
    assert_eq!(reg.len(), 1);
    assert!(reg.contains(7));
    assert!(!reg.contains(8));
}

#[test]
fn accept_mints_distinct_identities() {
    let mut reg = Registry::new(16);
    let a = reg.accept().expect("fresh random identity");
    let b = reg.accept().expect("fresh random identity");
    assert_ne!(a, b);
    assert_eq!(reg.len(), 2);
    assert!(reg.contains(a));
    assert!(reg.contains(b));
}

#[test]
fn send_to_absent_identity_is_silently_dropped() {
    let mut reg = Registry::new(16);
    assert!(reg.insert_with_id(1));
    assert!(!reg.send_to(999, AppMessage::Ping(5)));
    assert_eq!(reg.len(), 1);
    assert_eq!(reg.next_outbound_frame(1), None);
    assert_eq!(reg.next_outbound_frame(999), None);
}

#[test]
fn send_to_dead_connection_is_silently_dropped() {
    let mut reg = Registry::new(16);
    assert!(reg.insert_with_id(1));
    reg.mark_closed(1);
    assert!(!reg.send_to(1, AppMessage::Ping(5)));
    assert_eq!(reg.next_outbound_frame(1), None);
}

#[test]
fn reconcile_creates_and_tears_down_handles() {
    let mut reg = Registry::new(16);
    assert!(reg.insert_with_id(10));
    let events = reg.reconcile();
    assert_eq!(events, vec![ConnectionEvent::Established { id: 10, handle: 0 }]);
    let conns = reg.connections();
    assert_eq!(conns.len(), 1);
    assert_eq!(conns[0].id, 10);

    let events = reg.reconcile();
    assert!(events.is_empty());

    reg.mark_closed(10);
    let events = reg.reconcile();
    assert_eq!(events, vec![ConnectionEvent::Lost { id: 10, handle: 0 }]);
    assert_eq!(reg.len(), 0);
    assert!(reg.connections().is_empty());
}

#[test]
fn dead_record_without_handle_vanishes_without_event() {
    let mut reg = Registry::new(16);
    assert!(reg.insert_with_id(10));
    reg.mark_closed(10);
    let events = reg.reconcile();
    assert!(events.is_empty());
    assert_eq!(reg.len(), 0);
}

#[test]
fn handles_stay_distinct_across_generations() {
    let mut reg = Registry::new(16);
    assert!(reg.insert_with_id(1));
    let events = reg.reconcile();
    assert_eq!(events, vec![ConnectionEvent::Established { id: 1, handle: 0 }]);
    reg.mark_closed(1);
    reg.reconcile();
    assert!(reg.insert_with_id(2));
    let events = reg.reconcile();
    assert_eq!(events, vec![ConnectionEvent::Established { id: 2, handle: 1 }]);
}

#[test]
fn inbound_frames_drain_in_arrival_order() {
    let mut reg = Registry::new(16);
    assert!(reg.insert_with_id(5));
    assert_eq!(reg.handle_frame(5, &encode(&AppMessage::Ping(1))), Ok(true));
    assert_eq!(reg.handle_frame(5, &encode(&AppMessage::Ping(2))), Ok(true));
    let drained = reg.drain_inbound();
    assert_eq!(drained.len(), 2);
    assert_eq!(drained[0].connection, 5);
    assert_eq!(drained[0].msg, AppMessage::Ping(1));
    assert_eq!(drained[1].connection, 5);
    assert_eq!(drained[1].msg, AppMessage::Ping(2));
    assert!(reg.drain_inbound().is_empty());
}

#[test]
fn bad_frame_is_discarded_and_connection_lives_on() {
    let mut reg = Registry::new(16);
    assert!(reg.insert_with_id(5));
    assert_eq!(reg.handle_frame(5, &vec![42, 1]), Err(DecodeError::UnknownTag));
    assert_eq!(reg.handle_frame(5, &encode(&AppMessage::Pong(3))), Ok(true));
    let drained = reg.drain_inbound();
    assert_eq!(drained.len(), 1);
    assert_eq!(drained[0].msg, AppMessage::Pong(3));
}

#[test]
fn frame_for_unknown_identity_is_dropped() {
    let mut reg = Registry::new(16);
    assert_eq!(reg.handle_frame(5, &encode(&AppMessage::Ping(1))), Ok(false));
    assert!(reg.drain_inbound().is_empty());
}

#[test]
fn drain_keeps_per_connection_order_across_connections() {
    let mut reg = Registry::new(16);
    assert!(reg.insert_with_id(1));
    assert!(reg.insert_with_id(2));
    assert_eq!(reg.handle_frame(1, &encode(&AppMessage::Ping(10))), Ok(true));
    assert_eq!(reg.handle_frame(2, &encode(&AppMessage::Ping(20))), Ok(true));
    assert_eq!(reg.handle_frame(1, &encode(&AppMessage::Ping(11))), Ok(true));
    let drained = reg.drain_inbound();
    let of_one: Vec<_> = drained.iter().filter(|p| p.connection == 1).collect();
    let of_two: Vec<_> = drained.iter().filter(|p| p.connection == 2).collect();
    assert_eq!(of_one.len(), 2);
    assert_eq!(of_one[0].msg, AppMessage::Ping(10));
    assert_eq!(of_one[1].msg, AppMessage::Ping(11));
    assert_eq!(of_two.len(), 1);
    assert_eq!(of_two[0].msg, AppMessage::Ping(20));
}

#[test]
fn connections_lists_only_handled_records() {
    let mut reg = Registry::new(16);
    assert!(reg.insert_with_id(1));
    reg.reconcile();
    assert!(reg.insert_with_id(2));
    let conns = reg.connections();
    assert_eq!(conns.len(), 1);
    assert_eq!(conns[0].id, 1);
    reg.reconcile();
    let conns = reg.connections();
    assert_eq!(conns.len(), 2);
}

#[test]
fn each_of_three_peers_receives_exactly_its_own_payload() {
    let mut reg = Registry::new(16);
    for id in [1u128, 2, 3] {
        assert!(reg.insert_with_id(id));
    }
    reg.reconcile();
    let sends = vec![
        ServerSendPacket { connection_id: 1, msg: AppMessage::Ping(11) },
        ServerSendPacket { connection_id: 2, msg: AppMessage::Ping(22) },
        ServerSendPacket { connection_id: 3, msg: AppMessage::Ping(33) },
    ];
    reg.dispatch(&sends);
    for (id, n) in [(1u128, 11u64), (2, 22), (3, 33)] {
        let frame = reg.next_outbound_frame(id).expect("one queued frame");
        assert_eq!(frame, encode(&AppMessage::Ping(n)));
        assert_eq!(reg.next_outbound_frame(id), None);
    }
}

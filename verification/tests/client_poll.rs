//! The client connection state machine, and a whole round trip against
//! the server registry with the sockets simulated.

use webtick::client::Client;
use webtick::client::ClientSendPacket;
use webtick::client::ClientSettings;
use webtick::client::ClientStatus;
use webtick::client::SocketEvent;
use webtick::codec::encode;
use webtick::codec::AppMessage;
use webtick::registry::Registry;
use webtick::registry::ServerSendPacket;

fn settings(url: &str) -> ClientSettings {
    ClientSettings { url: url.as_bytes().to_vec() }
}

#[test]
fn status_defaults_to_disconnected() {
    let status = ClientStatus::default();
    assert!(!status.is_connected);
}

#[test]
fn first_poll_connects_and_open_ack_raises_flag() {
    let mut client = Client::new(16);
    assert!(!client.connectivity_status());
    let cfg = settings("ws://localhost:8080");
    let attempt = client.poll_connect(&cfg).expect("a connect attempt");
    assert_eq!(attempt, cfg.url);
    assert!(!client.connectivity_status());
    client.on_socket_event(SocketEvent::Opened);
    assert!(client.connectivity_status());
    assert_eq!(client.poll_connect(&cfg), None);
    assert!(client.connectivity_status());
}

#[test]
fn config_change_forces_reconnect_to_new_endpoint() {
    let mut client = Client::new(16);
    let old_cfg = settings("ws://localhost:8080");
    client.poll_connect(&old_cfg);
    client.on_socket_event(SocketEvent::Opened);
    assert!(client.connectivity_status());

    let new_cfg = settings("ws://example.test:9001");
    let attempt = client.poll_connect(&new_cfg).expect("a connect attempt");
    assert_eq!(attempt, new_cfg.url);
    assert!(!client.connectivity_status());
}

#[test]
fn remote_close_clears_flag_and_next_poll_reconnects() {
    let mut client = Client::new(16);
    let cfg = settings("ws://localhost:8080");
    client.poll_connect(&cfg);
    client.on_socket_event(SocketEvent::Opened);
    assert!(client.connectivity_status());

    client.on_socket_event(SocketEvent::Closed);
    assert!(!client.connectivity_status());

    let attempt = client.poll_connect(&cfg).expect("a fresh connect attempt");
    assert_eq!(attempt, cfg.url);
    client.on_socket_event(SocketEvent::Opened);
    assert!(client.connectivity_status());
}

#[test]
fn socket_error_behaves_like_close() {
    let mut client = Client::new(16);
    let cfg = settings("ws://localhost:8080");
    client.poll_connect(&cfg);
    client.on_socket_event(SocketEvent::Opened);
    client.on_socket_event(SocketEvent::Failed);
    assert!(!client.connectivity_status());
    assert!(client.poll_connect(&cfg).is_some());
}

#[test]
fn send_while_disconnected_is_silently_dropped() {
    let mut client = Client::new(16);
    assert!(!client.send(ClientSendPacket { msg: AppMessage::Ping(1) }));
    assert_eq!(client.next_outbound_frame(), None);
    let cfg = settings("ws://localhost:8080");
    client.poll_connect(&cfg);
    client.on_socket_event(SocketEvent::Opened);
    assert!(client.send(ClientSendPacket { msg: AppMessage::Ping(1) }));
    assert_eq!(client.next_outbound_frame(), Some(encode(&AppMessage::Ping(1))));
}

#[test]
fn non_binary_and_bad_frames_are_ignored() {
    let mut client = Client::new(16);
    let cfg = settings("ws://localhost:8080");
    client.poll_connect(&cfg);
    client.on_socket_event(SocketEvent::Opened);
    client.on_socket_event(SocketEvent::Other);
    assert!(client.on_socket_event(SocketEvent::Frame(vec![99])).is_some());
    assert!(client.connectivity_status());
    assert!(client.drain_inbound().is_empty());
}

#[test]
fn client_drains_inbound_in_order() {
    let mut client = Client::new(16);
    let cfg = settings("ws://localhost:8080");
    client.poll_connect(&cfg);
    client.on_socket_event(SocketEvent::Opened);
    client.on_socket_event(SocketEvent::Frame(encode(&AppMessage::Pong(1))));
    client.on_socket_event(SocketEvent::Frame(encode(&AppMessage::Pong(2))));
    let drained = client.drain_inbound();
    assert_eq!(drained.len(), 2);
    assert_eq!(drained[0].msg, AppMessage::Pong(1));
    assert_eq!(drained[1].msg, AppMessage::Pong(2));
    assert!(client.drain_inbound().is_empty());
}

#[test]
fn reconnect_discards_the_dead_sockets_outbound_queue() {
    let mut client = Client::new(16);
    let cfg = settings("ws://localhost:8080");
    client.poll_connect(&cfg);
    client.on_socket_event(SocketEvent::Opened);
    assert!(client.send(ClientSendPacket { msg: AppMessage::Ping(1) }));

    let new_cfg = settings("ws://example.test:9001");
    client.poll_connect(&new_cfg);
    assert_eq!(client.next_outbound_frame(), None);
}

#[test]
fn ping_pong_round_trip_through_both_poll_bridges() {
    let mut server = Registry::new(16);
    let mut client = Client::new(16);

    // The server accepts connection A; the client connects and is acked.
    let a: u128 = 0xA;
    assert!(server.insert_with_id(a));
    server.reconcile();
    let cfg = settings("ws://localhost:8080");
    client.poll_connect(&cfg);
    client.on_socket_event(SocketEvent::Opened);

    // The client sends Ping(100); the wire carries one binary frame.
    assert!(client.send(ClientSendPacket { msg: AppMessage::Ping(100) }));
    let frame = client.next_outbound_frame().expect("one frame on the wire");
    assert_eq!(server.handle_frame(a, &frame), Ok(true));

    // The server's next inbound drain yields exactly (A, Ping(100)).
    let drained = server.drain_inbound();
    assert_eq!(drained.len(), 1);
    assert_eq!(drained[0].connection, a);
    assert_eq!(drained[0].msg, AppMessage::Ping(100));

    // The server replies Pong(100) to A; the client's drain yields it.
    server.dispatch(&vec![ServerSendPacket { connection_id: a, msg: AppMessage::Pong(100) }]);
    let frame = server.next_outbound_frame(a).expect("one frame on the wire");
    assert!(client.on_socket_event(SocketEvent::Frame(frame)).is_none());
    let drained = client.drain_inbound();
    assert_eq!(drained.len(), 1);
    assert_eq!(drained[0].msg, AppMessage::Pong(100));
}

use ratelmq::authentication::AuthenticationError;
use ratelmq::broker::{Action, ClientEvent, MessagingService, ServerEvent};
use ratelmq::connection::{credentials, on_packet_read, on_read_end, ReaderState};
use ratelmq::decoder::read_packet;
use ratelmq::encoder::write_packet;
use ratelmq::packets::{
    ConnectPacket, ControlPacket, ProtocolVersion, PublishPacket, QoS, SubscribePacket,
    Subscription, UnsubscribePacket,
};

fn packet(data: &[u8]) -> ControlPacket {
    let (p, used) = read_packet(data).unwrap();
    assert_eq!(used, data.len());
    p
}

fn connect_bytes(client_id: &str) -> Vec<u8> {
    let cp = ConnectPacket::new(ProtocolVersion::Mqtt3, client_id.to_string(), 60, true, None, None, None);
    write_packet(&ControlPacket::Connect(cp))
}

fn connect(broker: &mut MessagingService, client_id: &str, conn: u64) -> Vec<Action> {
    let p = match packet(&connect_bytes(client_id)) {
        ControlPacket::Connect(cp) => cp,
        _ => panic!("not a CONNECT"),
    };
    broker.handle(ClientEvent::Connected(p, "127.0.0.1".to_string(), conn, Ok(())), 0)
}

fn from_client(broker: &mut MessagingService, client_id: &str, conn: u64, data: &[u8]) -> Vec<Action> {
    broker.handle(ClientEvent::ControlPacket(client_id.to_string(), packet(data), conn), 0)
}

fn sent_bytes(actions: &[Action], conn: u64) -> Vec<Vec<u8>> {
    actions
        .iter()
        .filter(|a| a.connection == conn)
        .map(|a| match &a.event {
            ServerEvent::ControlPacket(p) => write_packet(p),
            ServerEvent::Disconnect => vec![],
        })
        .collect()
}

fn subscribe(broker: &mut MessagingService, client_id: &str, conn: u64, filters: &[&str]) {
    let subs = filters.iter().map(|f| Subscription::new(f.to_string(), QoS::AtMostOnce)).collect();
    let data = write_packet(&ControlPacket::Subscribe(SubscribePacket::new(1, subs)));
    from_client(broker, client_id, conn, &data);
}

fn publish(broker: &mut MessagingService, client_id: &str, conn: u64, topic: &str) -> Vec<Action> {
    let p = PublishPacket::new(topic.to_string(), b"x".to_vec(), QoS::AtMostOnce, false, None, false);
    let data = write_packet(&ControlPacket::Publish(p));
    from_client(broker, client_id, conn, &data)
}

const PUBLISH_ABC: &[u8] = &[
    0x30, 0x10, 0x00, 0x05, 0x61, 0x2f, 0x62, 0x2f, 0x63, 0x74, 0x65, 0x73, 0x74, 0x20, 0x62, 0x6f,
    0x64, 0x79,
];

#[test]
fn minimal_connect_and_disconnect() {
    const CONNECT: &[u8] = &[
        0x10, 0x23, 0x00, 0x04, 0x4d, 0x51, 0x54, 0x54, 0x04, 0x02, 0x00, 0x3c, 0x00, 0x17, 0x6d,
        0x6f, 0x73, 0x71, 0x2d, 0x6e, 0x73, 0x36, 0x73, 0x7a, 0x33, 0x6b, 0x33, 0x6c, 0x62, 0x66,
        0x4d, 0x31, 0x49, 0x66, 0x62, 0x63, 0x52,
    ];
    let mut broker = MessagingService::new();
    let (state, event) = on_packet_read(ReaderState::AwaitingConnect, packet(CONNECT), "10.0.0.1".to_string(), 1, Ok(()));
    assert_eq!(state, ReaderState::Connected("mosq-ns6sz3k3lbfM1IfbcR".to_string()));
    let actions = broker.handle(event.unwrap(), 0);
    assert_eq!(sent_bytes(&actions, 1), vec![vec![0x20, 0x02, 0x00, 0x00]]);
    assert_eq!(broker.session_count(), 1);

    let (_, event) = on_packet_read(state, packet(&[0xe0, 0x00]), "10.0.0.1".to_string(), 1, Ok(()));
    let actions = broker.handle(event.unwrap(), 1);
    assert!(actions.is_empty());
    assert_eq!(broker.session_count(), 0);
}

#[test]
fn publish_qos0_reaches_matched_subscriber() {
    let mut broker = MessagingService::new();
    connect(&mut broker, "A", 1);
    let actions = from_client(
        &mut broker,
        "A",
        1,
        &[0x82, 0x0a, 0x00, 0x01, 0x00, 0x05, 0x61, 0x2f, 0x62, 0x2f, 0x63, 0x00],
    );
    assert_eq!(sent_bytes(&actions, 1), vec![vec![0x90, 0x03, 0x00, 0x01, 0x00]]);

    connect(&mut broker, "B", 2);
    let actions = from_client(&mut broker, "B", 2, PUBLISH_ABC);
    assert_eq!(sent_bytes(&actions, 1), vec![PUBLISH_ABC.to_vec()]);
    assert!(sent_bytes(&actions, 2).is_empty());
    assert_eq!(actions.len(), 1);
}

#[test]
fn plus_wildcard_in_the_middle() {
    let mut broker = MessagingService::new();
    connect(&mut broker, "A", 1);
    connect(&mut broker, "P", 2);
    subscribe(&mut broker, "A", 1, &["a/+/c"]);

    assert_eq!(publish(&mut broker, "P", 2, "a/b/c").len(), 1);
    assert_eq!(publish(&mut broker, "P", 2, "a/x/c").len(), 1);
    assert_eq!(publish(&mut broker, "P", 2, "a/b/d").len(), 0);
}

#[test]
fn hash_wildcard() {
    let mut broker = MessagingService::new();
    connect(&mut broker, "A", 1);
    connect(&mut broker, "P", 2);
    subscribe(&mut broker, "A", 1, &["a/#"]);

    assert_eq!(publish(&mut broker, "P", 2, "a").len(), 1);
    assert_eq!(publish(&mut broker, "P", 2, "a/b").len(), 1);
    assert_eq!(publish(&mut broker, "P", 2, "a/b/c/d").len(), 1);
    assert_eq!(publish(&mut broker, "P", 2, "b/x").len(), 0);
}

#[test]
fn overlapping_filters_deliver_once() {
    let mut broker = MessagingService::new();
    connect(&mut broker, "A", 1);
    connect(&mut broker, "P", 2);
    subscribe(&mut broker, "A", 1, &["a/b/c", "a/#"]);

    let actions = publish(&mut broker, "P", 2, "a/b/c");
    assert_eq!(actions.len(), 1);
    assert_eq!(actions[0].connection, 1);
}

#[test]
fn authentication_failure() {
    let mut broker = MessagingService::new();
    let cp = ConnectPacket::new(
        ProtocolVersion::Mqtt3,
        "alice-client".to_string(),
        60,
        true,
        None,
        Some("alice".to_string()),
        Some("wrong".to_string()),
    );
    let p = ControlPacket::Connect(cp);
    assert_eq!(credentials(&p), Some(("alice".to_string(), "wrong".to_string())));
    let (_, event) = on_packet_read(ReaderState::AwaitingConnect, p, "10.0.0.2".to_string(), 7, Err(AuthenticationError::InvalidPassword));
    let actions = broker.handle(event.unwrap(), 0);

    assert_eq!(actions.len(), 2);
    assert_eq!(sent_bytes(&actions[..1], 7), vec![vec![0x20, 0x02, 0x00, 0x05]]);
    assert!(matches!(actions[1].event, ServerEvent::Disconnect));
    assert_eq!(broker.session_count(), 0);
}

#[test]
fn connect_first_is_enforced() {
    let (state, event) = on_packet_read(ReaderState::AwaitingConnect, packet(&[0xc0, 0x00]), "10.0.0.3".to_string(), 3, Ok(()));
    assert_eq!(state, ReaderState::Closed);
    assert!(event.is_none());
    assert!(on_read_end(state).is_none());
}

#[test]
fn lost_connection_of_a_connected_client_is_reported() {
    match on_read_end(ReaderState::Connected("c".to_string())) {
        Some(ClientEvent::ConnectionLost(c)) => assert_eq!(c, "c"),
        _ => panic!("expected ConnectionLost"),
    }
}

#[test]
fn reconnecting_keeps_one_session_per_client() {
    let mut broker = MessagingService::new();
    connect(&mut broker, "A", 1);
    connect(&mut broker, "A", 2);
    connect(&mut broker, "B", 3);
    assert_eq!(broker.session_count(), 2);
    assert_eq!(broker.session_get(&"A".to_string()).unwrap().connection, 2);
}

#[test]
fn persistent_session_is_reported_present() {
    let mut broker = MessagingService::new();
    let cp = ConnectPacket::new(ProtocolVersion::Mqtt3, "P".to_string(), 10, false, None, None, None);
    let actions = broker.handle(ClientEvent::Connected(cp.clone(), String::new(), 1, Ok(())), 0);
    assert_eq!(sent_bytes(&actions, 1), vec![vec![0x20, 0x02, 0x00, 0x00]]);
    let actions = broker.handle(ClientEvent::Connected(cp, String::new(), 2, Ok(())), 5);
    assert_eq!(sent_bytes(&actions, 2), vec![vec![0x20, 0x02, 0x01, 0x00]]);
}

#[test]
fn disconnect_of_clean_session_drops_subscriptions() {
    let mut broker = MessagingService::new();
    connect(&mut broker, "A", 1);
    connect(&mut broker, "P", 2);
    subscribe(&mut broker, "A", 1, &["a/b", "#"]);
    broker.handle(ClientEvent::Disconnected("A".to_string()), 0);
    assert!(!broker.session_exists(&"A".to_string()));

    connect(&mut broker, "A", 4);
    assert_eq!(publish(&mut broker, "P", 2, "a/b").len(), 0);
}

#[test]
fn lost_persistent_session_keeps_subscriptions() {
    let mut broker = MessagingService::new();
    let cp = ConnectPacket::new(ProtocolVersion::Mqtt3, "A".to_string(), 10, false, None, None, None);
    broker.handle(ClientEvent::Connected(cp.clone(), String::new(), 1, Ok(())), 0);
    connect(&mut broker, "P", 2);
    subscribe(&mut broker, "A", 1, &["a/b"]);
    broker.handle(ClientEvent::ConnectionLost("A".to_string()), 0);
    assert_eq!(publish(&mut broker, "P", 2, "a/b").len(), 0);

    broker.handle(ClientEvent::Connected(cp, String::new(), 5, Ok(())), 0);
    let actions = publish(&mut broker, "P", 2, "a/b");
    assert_eq!(actions.len(), 1);
    assert_eq!(actions[0].connection, 5);
}

#[test]
fn unsubscribe_is_acknowledged() {
    let mut broker = MessagingService::new();
    connect(&mut broker, "A", 1);
    connect(&mut broker, "P", 2);
    subscribe(&mut broker, "A", 1, &["a/b"]);
    let data = write_packet(&ControlPacket::Unsubscribe(UnsubscribePacket::new(4, vec!["a/b".to_string()])));
    let actions = from_client(&mut broker, "A", 1, &data);
    assert_eq!(sent_bytes(&actions, 1), vec![vec![0xb0, 0x02, 0x00, 0x04]]);
    assert_eq!(publish(&mut broker, "P", 2, "a/b").len(), 0);
}

#[test]
fn ping_gets_pong_or_disconnect() {
    let mut broker = MessagingService::new();
    connect(&mut broker, "A", 1);
    let actions = from_client(&mut broker, "A", 1, &[0xc0, 0x00]);
    assert_eq!(sent_bytes(&actions, 1), vec![vec![0xd0, 0x00]]);

    let actions = from_client(&mut broker, "ghost", 9, &[0xc0, 0x00]);
    assert_eq!(actions.len(), 1);
    assert!(matches!(actions[0].event, ServerEvent::Disconnect));
}

#[test]
fn acknowledgements_from_clients_are_ignored() {
    let mut broker = MessagingService::new();
    connect(&mut broker, "A", 1);
    assert!(from_client(&mut broker, "A", 1, &[0x40, 0x02, 0x00, 0x02]).is_empty());
    assert_eq!(broker.session_count(), 1);
}

#[test]
fn subscribers_without_session_get_nothing() {
    let mut broker = MessagingService::new();
    connect(&mut broker, "P", 2);
    subscribe(&mut broker, "ghost", 9, &["a"]);
    assert_eq!(publish(&mut broker, "P", 2, "a").len(), 0);
}

#[test]
fn keep_alive_expiry() {
    let mut broker = MessagingService::new();
    let cp = ConnectPacket::new(ProtocolVersion::Mqtt3, "K".to_string(), 10, true, None, None, None);
    broker.handle(ClientEvent::Connected(cp, String::new(), 1, Ok(())), 100);
    let zero = ConnectPacket::new(ProtocolVersion::Mqtt3, "Z".to_string(), 0, true, None, None, None);
    broker.handle(ClientEvent::Connected(zero, String::new(), 2, Ok(())), 100);

    assert!(broker.session_get_keep_alive_expired(114).is_empty());
    assert_eq!(broker.session_get_keep_alive_expired(115), vec!["K".to_string()]);
    assert_eq!(broker.session_get_keep_alive_expired(1_000_000), vec!["K".to_string()]);
}

#[test]
fn traffic_refreshes_keep_alive() {
    let mut broker = MessagingService::new();
    let cp = ConnectPacket::new(ProtocolVersion::Mqtt3, "K".to_string(), 10, true, None, None, None);
    broker.handle(ClientEvent::Connected(cp, String::new(), 1, Ok(())), 100);
    broker.handle(ClientEvent::ControlPacket("K".to_string(), ControlPacket::PingReq, 1), 110);

    assert!(broker.session_get_keep_alive_expired(124).is_empty());
    assert_eq!(broker.session_get_keep_alive_expired(125), vec!["K".to_string()]);
    assert_eq!(broker.session_get(&"K".to_string()).unwrap().last_activity, 110);
}

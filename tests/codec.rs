use ratelmq::decoder::read_packet;
use ratelmq::encoder::write_packet;
use ratelmq::packets::{
    ConnAckPacket, ConnAckReturnCode, ConnectPacket, ControlPacket, DisconnectPacket, Message,
    ProtocolVersion, PubAckPacket, PubCompPacket, PubRecPacket, PubRelPacket, PublishPacket, QoS,
    SubAckPacket, SubAckReturnCode, SubscribePacket, Subscription, UnSubAckPacket,
    UnsubscribePacket,
};
use ratelmq::wire::{decode_remaining_length, encode_remaining_length, DecodeError};

fn decode(data: &[u8]) -> ControlPacket {
    let (packet, used) = read_packet(data).unwrap();
    assert_eq!(used, data.len());
    packet
}

fn assert_bytes(actual: Vec<u8>, expected: Vec<u8>) {
    assert_eq!(actual, expected, "Actual: {:02X?}\nExpected: {:02X?}", actual, expected);
}

#[test]
fn it_read_connect_min() {
    const DATA: &[u8] = &[
        0x10, 0x23, 0x00, 0x04, 0x4d, 0x51, 0x54, 0x54, 0x04, 0x02, 0x00, 0x3c, 0x00, 0x17, 0x6d,
        0x6f, 0x73, 0x71, 0x2d, 0x6e, 0x73, 0x36, 0x73, 0x7a, 0x33, 0x6b, 0x33, 0x6c, 0x62, 0x66,
        0x4d, 0x31, 0x49, 0x66, 0x62, 0x63, 0x52,
    ];

    match decode(DATA) {
        ControlPacket::Connect(connect) => {
            assert_eq!(connect.version, ProtocolVersion::Mqtt3);
            assert_eq!(connect.user_name, None);
            assert_eq!(connect.password, None);
            assert_eq!(connect.will_message, None);
            assert_eq!(connect.clean_session, true);
            assert_eq!(connect.keep_alive_seconds, 60);
            assert_eq!(connect.client_id, "mosq-ns6sz3k3lbfM1IfbcR");
        }
        _ => panic!("Invalid packet type"),
    };
}

#[test]
fn it_read_disconnect() {
    match decode(&[0xe0, 0x00]) {
        ControlPacket::Disconnect(_) => {}
        _ => panic!("Invalid packet type"),
    };
}

#[test]
fn it_read_publish_qos_0() {
    const DATA: &[u8] = &[
        0x30, 0x10, 0x00, 0x05, 0x61, 0x2f, 0x62, 0x2f, 0x63, 0x74, 0x65, 0x73, 0x74, 0x20, 0x62,
        0x6f, 0x64, 0x79,
    ];

    match decode(DATA) {
        ControlPacket::Publish(publish) => {
            assert_eq!(publish.dup, false);
            assert_eq!(publish.message.qos, QoS::AtMostOnce);
            assert_eq!(publish.message.retain, false);
            assert_eq!(publish.packet_id, None);
            assert_eq!(publish.message.topic, "a/b/c");
            assert_eq!(publish.message.payload, b"test body".to_vec());
        }
        _ => panic!("Invalid packet type"),
    };
}

#[test]
fn it_read_publish_qos_greater_than_0() {
    const DATA: &[u8] = &[
        0x3d, 0x12, 0x00, 0x05, 0x61, 0x2f, 0x62, 0x2f, 0x63, 0x12, 0x23, 0x74, 0x65, 0x73, 0x74,
        0x20, 0x62, 0x6f, 0x64, 0x79,
    ];

    match decode(DATA) {
        ControlPacket::Publish(publish) => {
            assert_eq!(publish.dup, true);
            assert_eq!(publish.message.retain, true);
            assert_eq!(publish.message.qos, QoS::ExactlyOnce);
            assert_eq!(publish.message.topic, "a/b/c");
            assert_eq!(publish.packet_id, Some(0x1223));
            assert_eq!(publish.message.payload, b"test body".to_vec());
        }
        _ => panic!("Invalid packet type"),
    };
}

#[test]
fn it_read_pub_ack() {
    match decode(&[0x40, 0x02, 0x00, 0x02]) {
        ControlPacket::PubAck(pub_ack) => assert_eq!(pub_ack.packet_id, 0x02),
        _ => panic!("Invalid packet type"),
    };
}

#[test]
fn it_read_pub_rec() {
    match decode(&[0x50, 0x02, 0x12, 0x34]) {
        ControlPacket::PubRec(pub_rec) => assert_eq!(pub_rec.packet_id, 0x1234),
        _ => panic!("Invalid packet type"),
    };
}

#[test]
fn it_read_pub_rel() {
    match decode(&[0x62, 0x02, 0x00, 0x67]) {
        ControlPacket::PubRel(pub_rel) => assert_eq!(pub_rel.packet_id, 0x67),
        _ => panic!("Invalid packet type"),
    };
}

#[test]
fn it_read_pub_comp() {
    match decode(&[0x70, 0x02, 0xcd, 0x12]) {
        ControlPacket::PubComp(pub_comp) => assert_eq!(pub_comp.packet_id, 0xcd12),
        _ => panic!("Invalid packet type"),
    };
}

#[test]
fn it_read_subscribe_one() {
    const DATA: &[u8] = &[0x82, 0x0a, 0x00, 0x01, 0x00, 0x05, 0x61, 0x2f, 0x62, 0x2f, 0x63, 0x00];

    match decode(DATA) {
        ControlPacket::Subscribe(subscribe) => {
            assert_eq!(subscribe.packet_id, 1);
            assert_eq!(
                subscribe.subscriptions,
                vec![Subscription::new("a/b/c".to_string(), QoS::AtMostOnce)]
            );
        }
        _ => panic!("Invalid packet type"),
    };
}

#[test]
fn it_read_subscribe_many() {
    const DATA: &[u8] = &[
        0x82, 0x1a, 0x00, 0x01, 0x00, 0x05, 0x61, 0x2f, 0x62, 0x2f, 0x63, 0x00, 0x00, 0x05, 0x7a,
        0x2f, 0x78, 0x2f, 0x63, 0x01, 0x00, 0x05, 0x71, 0x2f, 0x77, 0x2f, 0x65, 0x02,
    ];

    match decode(DATA) {
        ControlPacket::Subscribe(subscribe) => {
            assert_eq!(subscribe.packet_id, 1);
            assert_eq!(
                subscribe.subscriptions,
                vec![
                    Subscription::new("a/b/c".to_string(), QoS::AtMostOnce),
                    Subscription::new("z/x/c".to_string(), QoS::AtLeastOnce),
                    Subscription::new("q/w/e".to_string(), QoS::ExactlyOnce)
                ]
            );
        }
        _ => panic!("Invalid packet type"),
    };
}

#[test]
fn it_read_unsubscribe_one() {
    const DATA: &[u8] = &[0xa2, 0x09, 0x00, 0x02, 0x00, 0x05, 0x61, 0x2f, 0x62, 0x2f, 0x63];

    match decode(DATA) {
        ControlPacket::Unsubscribe(unsubscribe) => {
            assert_eq!(unsubscribe.packet_id, 2);
            assert_eq!(unsubscribe.topics, vec!["a/b/c".to_string()]);
        }
        _ => panic!("Invalid packet type"),
    };
}

#[test]
fn it_read_unsubscribe_many() {
    const DATA: &[u8] = &[
        0xa2, 0x17, 0x00, 0x02, 0x00, 0x05, 0x61, 0x2f, 0x62, 0x2f, 0x63, 0x00, 0x05, 0x7a, 0x2f,
        0x78, 0x2f, 0x63, 0x00, 0x05, 0x71, 0x2f, 0x77, 0x2f, 0x65,
    ];

    match decode(DATA) {
        ControlPacket::Unsubscribe(unsubscribe) => {
            assert_eq!(unsubscribe.packet_id, 2);
            assert_eq!(
                unsubscribe.topics,
                vec!["a/b/c".to_string(), "z/x/c".to_string(), "q/w/e".to_string()]
            );
        }
        _ => panic!("Invalid packet type"),
    };
}

#[test]
fn it_read_ping_req() {
    match decode(&[0xc0, 0x00]) {
        ControlPacket::PingReq => {}
        _ => panic!("Invalid packet type"),
    };
}

#[test]
fn it_write_conn_ack() {
    let conn_ack = ConnAckPacket::new(false, ConnAckReturnCode::Accepted);
    assert_bytes(write_packet(&ControlPacket::ConnAck(conn_ack)), vec![0x20, 0x02, 0x00, 0x00])
}

#[test]
fn it_write_publish_qos_0() {
    const EXPECTED_DATA: &[u8] = &[
        0x30, 0x10, 0x00, 0x05, 0x61, 0x2f, 0x62, 0x2f, 0x63, 0x74, 0x65, 0x73, 0x74, 0x20, 0x62,
        0x6f, 0x64, 0x79,
    ];
    let publish = PublishPacket::new(
        "a/b/c".to_string(),
        b"test body".to_vec(),
        QoS::AtMostOnce,
        false,
        None,
        false,
    );

    assert_bytes(write_packet(&ControlPacket::Publish(publish)), EXPECTED_DATA.to_vec())
}

#[test]
fn it_write_publish_qos_greater_than_0() {
    const EXPECTED_DATA: &[u8] = &[
        0x3d, 0x12, 0x00, 0x05, 0x61, 0x2f, 0x62, 0x2f, 0x63, 0x12, 0x23, 0x74, 0x65, 0x73, 0x74,
        0x20, 0x62, 0x6f, 0x64, 0x79,
    ];
    let publish = PublishPacket::new(
        "a/b/c".to_string(),
        b"test body".to_vec(),
        QoS::ExactlyOnce,
        true,
        Some(0x1223),
        true,
    );

    assert_bytes(write_packet(&ControlPacket::Publish(publish)), EXPECTED_DATA.to_vec())
}

#[test]
fn it_write_pub_ack() {
    assert_bytes(write_packet(&ControlPacket::PubAck(PubAckPacket::new(0x02))), vec![0x40, 0x02, 0x00, 0x02])
}

#[test]
fn it_write_pub_rec() {
    assert_bytes(write_packet(&ControlPacket::PubRec(PubRecPacket::new(0x1234))), vec![0x50, 0x02, 0x12, 0x34])
}

#[test]
fn it_write_pubrel() {
    assert_bytes(write_packet(&ControlPacket::PubRel(PubRelPacket::new(0x67))), vec![0x62, 0x02, 0x00, 0x67])
}

#[test]
fn it_write_pub_comp() {
    assert_bytes(write_packet(&ControlPacket::PubComp(PubCompPacket::new(0xcd12))), vec![0x70, 0x02, 0xcd, 0x12])
}

#[test]
fn it_write_sub_ack() {
    let sub_ack = SubAckPacket::new(
        0xa3c9,
        vec![
            SubAckReturnCode::Failure,
            SubAckReturnCode::SuccessQoS0,
            SubAckReturnCode::SuccessQoS1,
            SubAckReturnCode::SuccessQoS2,
        ],
    );

    assert_bytes(
        write_packet(&ControlPacket::SubAck(sub_ack)),
        vec![0x90, 0x06, 0xa3, 0xc9, 0x80, 0x00, 0x01, 0x02],
    )
}

#[test]
fn it_write_unsub_ack() {
    assert_bytes(write_packet(&ControlPacket::UnsubAck(UnSubAckPacket::new(6))), vec![0xb0, 0x02, 0x00, 0x06])
}

#[test]
fn it_write_ping_resp() {
    assert_bytes(write_packet(&ControlPacket::PingResp), vec![0xd0, 0x00])
}

fn round_trip(packet: ControlPacket) {
    let mut bytes = write_packet(&packet);
    let len = bytes.len();
    bytes.extend_from_slice(&[0xc0, 0x00]);
    let (decoded, used) = read_packet(&bytes).unwrap();
    assert_eq!(used, len);
    assert_eq!(decoded, packet);
    assert_eq!(write_packet(&decoded), bytes[..len].to_vec());
}

#[test]
fn every_packet_shape_round_trips() {
    round_trip(ControlPacket::Connect(ConnectPacket::new(
        ProtocolVersion::Mqtt3,
        "client-ü".to_string(),
        30,
        false,
        Some(Message { topic: "last/will".to_string(), payload: vec![1, 2, 3], qos: QoS::AtLeastOnce, retain: true }),
        Some("alice".to_string()),
        Some("secret".to_string()),
    )));
    round_trip(ControlPacket::Connect(ConnectPacket::new(
        ProtocolVersion::Mqtt5,
        String::new(),
        0,
        true,
        None,
        Some("bob".to_string()),
        None,
    )));
    round_trip(ControlPacket::ConnAck(ConnAckPacket::new(true, ConnAckReturnCode::NotAuthorized)));
    round_trip(ControlPacket::Publish(PublishPacket::new(
        "t".to_string(),
        vec![0u8; 300],
        QoS::AtLeastOnce,
        false,
        Some(7),
        false,
    )));
    round_trip(ControlPacket::PubAck(PubAckPacket::new(1)));
    round_trip(ControlPacket::PubRec(PubRecPacket::new(2)));
    round_trip(ControlPacket::PubRel(PubRelPacket::new(3)));
    round_trip(ControlPacket::PubComp(PubCompPacket::new(4)));
    round_trip(ControlPacket::Subscribe(SubscribePacket::new(
        9,
        vec![
            Subscription::new("a/+".to_string(), QoS::ExactlyOnce),
            Subscription::new("#".to_string(), QoS::AtMostOnce),
        ],
    )));
    round_trip(ControlPacket::SubAck(SubAckPacket::new(5, vec![SubAckReturnCode::SuccessQoS1])));
    round_trip(ControlPacket::Unsubscribe(UnsubscribePacket::new(10, vec!["x".to_string()])));
    round_trip(ControlPacket::UnsubAck(UnSubAckPacket::new(11)));
    round_trip(ControlPacket::PingReq);
    round_trip(ControlPacket::PingResp);
    round_trip(ControlPacket::Disconnect(DisconnectPacket {}));
}

#[test]
fn remaining_length_sizes() {
    let cases: [(u32, Vec<u8>); 8] = [
        (0, vec![0x00]),
        (127, vec![0x7f]),
        (128, vec![0x80, 0x01]),
        (16383, vec![0xff, 0x7f]),
        (16384, vec![0x80, 0x80, 0x01]),
        (2097151, vec![0xff, 0xff, 0x7f]),
        (2097152, vec![0x80, 0x80, 0x80, 0x01]),
        (268435455, vec![0xff, 0xff, 0xff, 0x7f]),
    ];
    for (n, expected) in cases.iter() {
        let mut out = Vec::new();
        encode_remaining_length(*n, &mut out);
        assert_eq!(&out, expected);
        assert_eq!(decode_remaining_length(&out), Ok((*n, out.len())));
    }
}

#[test]
fn remaining_length_longer_than_four_bytes_is_malformed() {
    assert_eq!(decode_remaining_length(&[0xff, 0xff, 0xff, 0xff, 0x7f]), Err(DecodeError::MalformedLength));
    assert_eq!(decode_remaining_length(&[0x80, 0x80]), Err(DecodeError::Incomplete));
}

#[test]
fn decoding_errors() {
    assert_eq!(read_packet(&[]), Err(DecodeError::Incomplete));
    assert_eq!(read_packet(&[0x30, 0x05, 0x00]), Err(DecodeError::Incomplete));
    assert_eq!(read_packet(&[0x00, 0x00]), Err(DecodeError::UnsupportedPacket));
    assert_eq!(read_packet(&[0xf0, 0x00]), Err(DecodeError::UnsupportedPacket));
    assert_eq!(read_packet(&[0x36, 0x00]), Err(DecodeError::MalformedHeader));
    assert_eq!(read_packet(&[0x80, 0x02, 0x00, 0x01]), Err(DecodeError::MalformedHeader));
    assert_eq!(read_packet(&[0xc1, 0x00]), Err(DecodeError::MalformedHeader));
    assert_eq!(read_packet(&[0xc0, 0xff, 0xff, 0xff, 0xff]), Err(DecodeError::MalformedLength));
    assert_eq!(read_packet(&[0x82, 0x02, 0x00, 0x01]), Err(DecodeError::MalformedPayload));
    assert_eq!(read_packet(&[0xa2, 0x02, 0x00, 0x01]), Err(DecodeError::MalformedPayload));
    assert_eq!(read_packet(&[0x82, 0x06, 0x00, 0x01, 0x00, 0x01, 0x61, 0x03]), Err(DecodeError::MalformedPayload));
    assert_eq!(read_packet(&[0x30, 0x03, 0x00, 0x01, 0xff]), Err(DecodeError::MalformedUtf8));
    assert_eq!(read_packet(&[0x40, 0x03, 0x00, 0x01, 0x00]), Err(DecodeError::MalformedPayload));
    assert_eq!(read_packet(&[0xc0, 0x01, 0x00]), Err(DecodeError::MalformedPayload));
    assert_eq!(read_packet(&[0x20, 0x02, 0x02, 0x00]), Err(DecodeError::MalformedPayload));
}

#[test]
fn connect_flag_rules() {
    // password without user name
    let mut data = vec![0x10, 0x0d, 0x00, 0x04, 0x4d, 0x51, 0x54, 0x54, 0x04, 0x40, 0x00, 0x3c, 0x00, 0x01, 0x63];
    assert_eq!(read_packet(&data), Err(DecodeError::MalformedPayload));
    // reserved bit set
    data[9] = 0x01;
    assert_eq!(read_packet(&data), Err(DecodeError::MalformedPayload));
    // will QoS without a will
    data[9] = 0x08;
    assert_eq!(read_packet(&data), Err(DecodeError::MalformedPayload));
    // a clean session and nothing else is fine
    data[9] = 0x02;
    assert!(read_packet(&data).is_ok());
}

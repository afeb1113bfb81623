//! The MQTT 3.1.1 packet format, stated over the packet models: the bytes
//! that stand for a packet, and what a byte sequence decodes to.
use crate::packets::{
    connack_code_byte, connack_code_of_byte, is_suback_code_byte, qos_bits, qos_of_bits,
    suback_code_byte, suback_code_of_byte, ConnectModel, MessageModel, PacketModel,
    ProtocolVersion, PublishModel, QoS, SubAckReturnCode, PACKET_TYPE_CONNECT,
    PACKET_TYPE_CONN_ACK, PACKET_TYPE_DISCONNECT, PACKET_TYPE_PING_REQ, PACKET_TYPE_PING_RESP,
    PACKET_TYPE_PUBLISH, PACKET_TYPE_PUB_ACK, PACKET_TYPE_PUB_COMP, PACKET_TYPE_PUB_REC,
    PACKET_TYPE_PUB_REL, PACKET_TYPE_SUBSCRIBE, PACKET_TYPE_SUB_ACK, PACKET_TYPE_UNSUBSCRIBE,
};
use crate::wire::{
    block_bytes, rl_bytes, rl_parse, string_bytes, string_fits, take_block, take_string, take_u16,
    u16_bytes, DecodeError, MAX_REMAINING_LENGTH,
};
use vstd::prelude::*;

verus! {

// ---------------------------------------------------------------------------
// Encoding
// ---------------------------------------------------------------------------

pub open spec fn flag(b: bool, v: u8) -> u8 {
    if b {
        v
    } else {
        0
    }
}

/// The bytes of the protocol name, "MQTT".
pub open spec fn protocol_name() -> Seq<u8> {
    seq![0x4D, 0x51, 0x54, 0x54]
}

pub open spec fn protocol_level(v: ProtocolVersion) -> u8 {
    match v {
        ProtocolVersion::Mqtt3 => 4,
        ProtocolVersion::Mqtt5 => 5,
    }
}

pub open spec fn connect_flags(c: ConnectModel) -> u8 {
    (flag(c.clean_session, 2) + match c.will_message {
        Some(m) => 4 + qos_bits(m.qos) * 8 + flag(m.retain, 32),
        None => 0,
    } + flag(c.password is Some, 64) + flag(c.user_name is Some, 128)) as u8
}

pub open spec fn opt_string_bytes(o: Option<Seq<char>>) -> Seq<u8> {
    match o {
        Some(s) => string_bytes(s),
        None => Seq::empty(),
    }
}

pub open spec fn will_bytes(w: Option<MessageModel>) -> Seq<u8> {
    match w {
        Some(m) => string_bytes(m.topic) + block_bytes(m.payload),
        None => Seq::empty(),
    }
}

pub open spec fn connect_body(c: ConnectModel) -> Seq<u8> {
    block_bytes(protocol_name()) + seq![protocol_level(c.version), connect_flags(c)] + u16_bytes(
        c.keep_alive_seconds,
    ) + string_bytes(c.client_id) + will_bytes(c.will_message) + opt_string_bytes(c.user_name)
        + opt_string_bytes(c.password)
}

pub open spec fn publish_first_byte(p: PublishModel) -> u8 {
    (0x30 + flag(p.dup, 8) + qos_bits(p.message.qos) * 2 + flag(p.message.retain, 1)) as u8
}

pub open spec fn publish_body(p: PublishModel) -> Seq<u8> {
    string_bytes(p.message.topic) + match p.packet_id {
        Some(id) => u16_bytes(id),
        None => Seq::empty(),
    } + p.message.payload
}

pub open spec fn subscription_bytes(s: (Seq<char>, QoS)) -> Seq<u8> {
    string_bytes(s.0) + seq![qos_bits(s.1)]
}

pub open spec fn subscriptions_bytes(subs: Seq<(Seq<char>, QoS)>) -> Seq<u8>
    decreases subs.len(),
{
    if subs.len() == 0 {
        Seq::empty()
    } else {
        subscriptions_bytes(subs.drop_last()) + subscription_bytes(subs.last())
    }
}

pub open spec fn topics_bytes(topics: Seq<Seq<char>>) -> Seq<u8>
    decreases topics.len(),
{
    if topics.len() == 0 {
        Seq::empty()
    } else {
        topics_bytes(topics.drop_last()) + string_bytes(topics.last())
    }
}

pub open spec fn codes_bytes(codes: Seq<SubAckReturnCode>) -> Seq<u8> {
    codes.map_values(|c: SubAckReturnCode| suback_code_byte(c))
}

/// The first byte of a packet: its type in the high nibble, its flags in
/// the low one.
pub open spec fn first_byte(p: PacketModel) -> u8 {
    match p {
        PacketModel::Connect(_) => 0x10,
        PacketModel::ConnAck { .. } => 0x20,
        PacketModel::Publish(pp) => publish_first_byte(pp),
        PacketModel::PubAck(_) => 0x40,
        PacketModel::PubRec(_) => 0x50,
        PacketModel::PubRel(_) => 0x62,
        PacketModel::PubComp(_) => 0x70,
        PacketModel::Subscribe { .. } => 0x82,
        PacketModel::SubAck { .. } => 0x90,
        PacketModel::Unsubscribe { .. } => 0xA2,
        PacketModel::UnsubAck(_) => 0xB0,
        PacketModel::PingReq => 0xC0,
        PacketModel::PingResp => 0xD0,
        PacketModel::Disconnect => 0xE0,
    }
}

/// What follows the fixed header: variable header and payload.
pub open spec fn packet_body(p: PacketModel) -> Seq<u8> {
    match p {
        PacketModel::Connect(c) => connect_body(c),
        PacketModel::ConnAck { session_present, return_code } => seq![
            flag(session_present, 1),
            connack_code_byte(return_code),
        ],
        PacketModel::Publish(pp) => publish_body(pp),
        PacketModel::PubAck(id) => u16_bytes(id),
        PacketModel::PubRec(id) => u16_bytes(id),
        PacketModel::PubRel(id) => u16_bytes(id),
        PacketModel::PubComp(id) => u16_bytes(id),
        PacketModel::Subscribe { packet_id, subscriptions } => u16_bytes(packet_id)
            + subscriptions_bytes(subscriptions),
        PacketModel::SubAck { packet_id, return_codes } => u16_bytes(packet_id) + codes_bytes(
            return_codes,
        ),
        PacketModel::Unsubscribe { packet_id, topics } => u16_bytes(packet_id) + topics_bytes(
            topics,
        ),
        PacketModel::UnsubAck(id) => u16_bytes(id),
        PacketModel::PingReq => Seq::empty(),
        PacketModel::PingResp => Seq::empty(),
        PacketModel::Disconnect => Seq::empty(),
    }
}

/// The bytes of a whole packet: fixed header, Remaining Length, body.
pub open spec fn packet_bytes(p: PacketModel) -> Seq<u8> {
    seq![first_byte(p)] + rl_bytes(packet_body(p).len()) + packet_body(p)
}

pub open spec fn opt_string_fits(o: Option<Seq<char>>) -> bool {
    match o {
        Some(s) => string_fits(s),
        None => true,
    }
}

/// Each string and block fits its length prefix, and the fields agree
/// with one another as the protocol asks: a packet identifier exactly when
/// QoS is above 0, a password only beside a user name, at least one topic
/// in SUBSCRIBE and UNSUBSCRIBE.
pub open spec fn fields_fit(p: PacketModel) -> bool {
    match p {
        PacketModel::Connect(c) => {
            &&& string_fits(c.client_id)
            &&& match c.will_message {
                Some(m) => string_fits(m.topic) && m.payload.len() <= 65535,
                None => true,
            }
            &&& opt_string_fits(c.user_name)
            &&& opt_string_fits(c.password)
            &&& (c.password is Some ==> c.user_name is Some)
        },
        PacketModel::Publish(pp) => {
            &&& string_fits(pp.message.topic)
            &&& (pp.packet_id is Some <==> pp.message.qos != QoS::AtMostOnce)
        },
        PacketModel::Subscribe { packet_id, subscriptions } => {
            &&& subscriptions.len() > 0
            &&& forall|i: int| 0 <= i < subscriptions.len() ==> string_fits(#[trigger] subscriptions[i].0)
        },
        PacketModel::Unsubscribe { packet_id, topics } => {
            &&& topics.len() > 0
            &&& forall|i: int| 0 <= i < topics.len() ==> string_fits(#[trigger] topics[i])
        },
        _ => true,
    }
}

/// The packets that the encoder can write and the decoder gives back: the
/// fields fit and the body fits the Remaining Length.
pub open spec fn packet_wf(p: PacketModel) -> bool {
    &&& packet_body(p).len() <= MAX_REMAINING_LENGTH
    &&& fields_fit(p)
}

// ---------------------------------------------------------------------------
// Decoding
// ---------------------------------------------------------------------------

/// The fixed-header flags that each packet type admits.
pub open spec fn flags_ok(ptype: u8, flags: u8) -> bool {
    if ptype == PACKET_TYPE_PUBLISH {
        (flags / 2) % 4 != 3
    } else if ptype == PACKET_TYPE_PUB_REL || ptype == PACKET_TYPE_SUBSCRIBE || ptype
        == PACKET_TYPE_UNSUBSCRIBE {
        flags == 2
    } else {
        flags == 0
    }
}

pub open spec fn has_bit(b: u8, k: u8) -> bool {
    (b / k) % 2 == 1
}

pub open spec fn will_qos_bits(f: u8) -> u8 {
    ((f / 8) % 4) as u8
}

/// CONNECT flags: the reserved bit clear, will QoS and will retain only
/// with a will, will QoS below 3, a password only with a user name.
pub open spec fn connect_flags_ok(f: u8) -> bool {
    &&& f % 2 == 0
    &&& will_qos_bits(f) != 3
    &&& (!has_bit(f, 4) ==> will_qos_bits(f) == 0 && !has_bit(f, 32))
    &&& (has_bit(f, 64) ==> has_bit(f, 128))
}

pub open spec fn take_opt_string(present: bool, s: Seq<u8>) -> Result<
    (Option<Seq<char>>, Seq<u8>),
    DecodeError,
> {
    if !present {
        Ok((None, s))
    } else {
        match take_string(s) {
            Err(e) => Err(e),
            Ok((v, rest)) => Ok((Some(v), rest)),
        }
    }
}

pub open spec fn take_will(f: u8, s: Seq<u8>) -> Result<(Option<MessageModel>, Seq<u8>), DecodeError> {
    if !has_bit(f, 4) {
        Ok((None, s))
    } else {
        match take_string(s) {
            Err(e) => Err(e),
            Ok((topic, r)) => match take_block(r) {
                Err(e) => Err(e),
                Ok((payload, r2)) => Ok(
                    (
                        Some(
                            MessageModel {
                                topic,
                                payload,
                                qos: qos_of_bits(will_qos_bits(f)),
                                retain: has_bit(f, 32),
                            },
                        ),
                        r2,
                    ),
                ),
            },
        }
    }
}

pub open spec fn version_of_level(level: u8) -> ProtocolVersion {
    if level == 5 {
        ProtocolVersion::Mqtt5
    } else {
        ProtocolVersion::Mqtt3
    }
}

/// What follows the keep-alive in CONNECT: client id, then will topic and
/// payload, user name and password as the flags say, and nothing more.
#[verifier::opaque]
pub open spec fn parse_connect_payload(level: u8, f: u8, keep_alive: u16, s: Seq<u8>) -> Result<
    PacketModel,
    DecodeError,
> {
    match take_string(s) {
        Err(e) => Err(e),
        Ok((client_id, r3)) => match take_will(f, r3) {
            Err(e) => Err(e),
            Ok((will_message, r4)) => match take_opt_string(has_bit(f, 128), r4) {
                Err(e) => Err(e),
                Ok((user_name, r5)) => match take_opt_string(has_bit(f, 64), r5) {
                    Err(e) => Err(e),
                    Ok((password, r6)) => if r6.len() != 0 {
                        Err(DecodeError::MalformedPayload)
                    } else {
                        Ok(
                            PacketModel::Connect(
                                ConnectModel {
                                    version: version_of_level(level),
                                    client_id,
                                    keep_alive_seconds: keep_alive,
                                    clean_session: has_bit(f, 2),
                                    will_message,
                                    user_name,
                                    password,
                                },
                            ),
                        )
                    },
                },
            },
        },
    }
}

/// The CONNECT body: protocol name, level, flags, keep-alive, then the
/// payload.
pub open spec fn parse_connect(b: Seq<u8>) -> Result<PacketModel, DecodeError> {
    match take_block(b) {
        Err(e) => Err(e),
        Ok((_name, r1)) => if r1.len() < 4 {
            Err(DecodeError::MalformedPayload)
        } else if !connect_flags_ok(r1[1]) {
            Err(DecodeError::MalformedPayload)
        } else {
            parse_connect_payload(
                r1[0],
                r1[1],
                (r1[2] as int * 256 + r1[3] as int) as u16,
                r1.subrange(4, r1.len() as int),
            )
        },
    }
}

/// The PUBLISH body: topic, a packet identifier when QoS is above 0, and
/// the rest as payload.
pub open spec fn parse_publish(f: u8, b: Seq<u8>) -> Result<PacketModel, DecodeError> {
    let qos = qos_of_bits(((f / 2) % 4) as u8);
    let dup = has_bit(f, 8);
    let retain = f % 2 == 1;
    match take_string(b) {
        Err(e) => Err(e),
        Ok((topic, r)) => if qos == QoS::AtMostOnce {
            Ok(
                PacketModel::Publish(
                    PublishModel {
                        packet_id: None,
                        dup,
                        message: MessageModel { topic, payload: r, qos, retain },
                    },
                ),
            )
        } else {
            match take_u16(r) {
                Err(e) => Err(e),
                Ok((id, r2)) => Ok(
                    PacketModel::Publish(
                        PublishModel {
                            packet_id: Some(id),
                            dup,
                            message: MessageModel { topic, payload: r2, qos, retain },
                        },
                    ),
                ),
            }
        },
    }
}

/// A SUBSCRIBE payload: (topic filter, QoS byte) pairs up to the end.
pub open spec fn parse_subscription_list(s: Seq<u8>) -> Result<Seq<(Seq<char>, QoS)>, DecodeError>
    decreases s.len(),
{
    if s.len() == 0 {
        Ok(Seq::empty())
    } else {
        match take_string(s) {
            Err(e) => Err(e),
            Ok((t, r)) => if r.len() == 0 || r[0] > 2 {
                Err(DecodeError::MalformedPayload)
            } else {
                match parse_subscription_list(r.drop_first()) {
                    Err(e) => Err(e),
                    Ok(l) => Ok(seq![(t, qos_of_bits(r[0]))] + l),
                }
            },
        }
    }
}

/// An UNSUBSCRIBE payload: topic filters up to the end.
pub open spec fn parse_topic_list(s: Seq<u8>) -> Result<Seq<Seq<char>>, DecodeError>
    decreases s.len(),
{
    if s.len() == 0 {
        Ok(Seq::empty())
    } else {
        match take_string(s) {
            Err(e) => Err(e),
            Ok((t, r)) => match parse_topic_list(r) {
                Err(e) => Err(e),
                Ok(l) => Ok(seq![t] + l),
            },
        }
    }
}

pub open spec fn parse_subscribe(b: Seq<u8>) -> Result<PacketModel, DecodeError> {
    match take_u16(b) {
        Err(e) => Err(e),
        Ok((packet_id, r)) => if r.len() == 0 {
            Err(DecodeError::MalformedPayload)
        } else {
            match parse_subscription_list(r) {
                Err(e) => Err(e),
                Ok(subscriptions) => Ok(PacketModel::Subscribe { packet_id, subscriptions }),
            }
        },
    }
}

pub open spec fn parse_unsubscribe(b: Seq<u8>) -> Result<PacketModel, DecodeError> {
    match take_u16(b) {
        Err(e) => Err(e),
        Ok((packet_id, r)) => if r.len() == 0 {
            Err(DecodeError::MalformedPayload)
        } else {
            match parse_topic_list(r) {
                Err(e) => Err(e),
                Ok(topics) => Ok(PacketModel::Unsubscribe { packet_id, topics }),
            }
        },
    }
}

pub open spec fn parse_suback(b: Seq<u8>) -> Result<PacketModel, DecodeError> {
    match take_u16(b) {
        Err(e) => Err(e),
        Ok((packet_id, r)) => if forall|i: int| 0 <= i < r.len() ==> is_suback_code_byte(#[trigger] r[i]) {
            Ok(
                PacketModel::SubAck {
                    packet_id,
                    return_codes: r.map_values(|b: u8| suback_code_of_byte(b)),
                },
            )
        } else {
            Err(DecodeError::MalformedPayload)
        },
    }
}

/// A body that is a packet identifier and nothing else.
pub open spec fn parse_id_only(b: Seq<u8>) -> Result<u16, DecodeError> {
    if b.len() != 2 {
        Err(DecodeError::MalformedPayload)
    } else {
        Ok((b[0] as int * 256 + b[1] as int) as u16)
    }
}

#[verifier::opaque]
pub open spec fn parse_body(ptype: u8, f: u8, b: Seq<u8>) -> Result<PacketModel, DecodeError> {
    if ptype == PACKET_TYPE_CONNECT {
        parse_connect(b)
    } else if ptype == PACKET_TYPE_CONN_ACK {
        if b.len() == 2 && b[0] <= 1 && b[1] <= 5 {
            Ok(
                PacketModel::ConnAck {
                    session_present: b[0] == 1,
                    return_code: connack_code_of_byte(b[1]),
                },
            )
        } else {
            Err(DecodeError::MalformedPayload)
        }
    } else if ptype == PACKET_TYPE_PUBLISH {
        parse_publish(f, b)
    } else if ptype == PACKET_TYPE_SUBSCRIBE {
        parse_subscribe(b)
    } else if ptype == PACKET_TYPE_SUB_ACK {
        parse_suback(b)
    } else if ptype == PACKET_TYPE_UNSUBSCRIBE {
        parse_unsubscribe(b)
    } else if ptype == PACKET_TYPE_PING_REQ || ptype == PACKET_TYPE_PING_RESP || ptype
        == PACKET_TYPE_DISCONNECT {
        if b.len() != 0 {
            Err(DecodeError::MalformedPayload)
        } else if ptype == PACKET_TYPE_PING_REQ {
            Ok(PacketModel::PingReq)
        } else if ptype == PACKET_TYPE_PING_RESP {
            Ok(PacketModel::PingResp)
        } else {
            Ok(PacketModel::Disconnect)
        }
    } else {
        match parse_id_only(b) {
            Err(e) => Err(e),
            Ok(id) => Ok(
                if ptype == PACKET_TYPE_PUB_ACK {
                    PacketModel::PubAck(id)
                } else if ptype == PACKET_TYPE_PUB_REC {
                    PacketModel::PubRec(id)
                } else if ptype == PACKET_TYPE_PUB_REL {
                    PacketModel::PubRel(id)
                } else if ptype == PACKET_TYPE_PUB_COMP {
                    PacketModel::PubComp(id)
                } else {
                    PacketModel::UnsubAck(id)
                },
            ),
        }
    }
}

/// What the bytes at the start of `s` decode to: a packet and the number
/// of bytes it takes, or why there is none. The first byte is checked as
/// soon as it is there, then the Remaining Length, then the body, which
/// must be consumed exactly.
pub open spec fn parse_packet(s: Seq<u8>) -> Result<(PacketModel, nat), DecodeError> {
    if s.len() == 0 {
        Err(DecodeError::Incomplete)
    } else {
        let ptype = s[0] / 16;
        let f = s[0] % 16;
        if ptype == 0 || ptype == 15 {
            Err(DecodeError::UnsupportedPacket)
        } else if !flags_ok(ptype, f) {
            Err(DecodeError::MalformedHeader)
        } else {
            match rl_parse(s.drop_first()) {
                Err(e) => Err(e),
                Ok((len, n)) => if s.len() < 1 + n + len {
                    Err(DecodeError::Incomplete)
                } else {
                    match parse_body(ptype, f, s.subrange(1 + n as int, 1 + n + len as int)) {
                        Err(e) => Err(e),
                        Ok(p) => Ok((p, 1 + n + len)),
                    }
                },
            }
        }
    }
}

} // verus!

//! Reads packets from bytes.
use crate::format::{
    connect_flags_ok, flags_ok, parse_body, parse_connect, parse_connect_payload, parse_id_only,
    parse_packet, parse_publish, parse_suback, parse_subscribe, parse_subscription_list,
    parse_topic_list, parse_unsubscribe, take_opt_string, take_will,
};
use crate::packets::{
    is_suback_code_byte, strings_view, subscriptions_view, suback_code_of_byte,
    ConnAckPacket, ConnAckReturnCode, ConnectPacket, ControlPacket, DisconnectPacket, Message,
    PacketModel, ProtocolVersion, PubAckPacket, PubCompPacket, PubRecPacket,
    PubRelPacket, PublishPacket, QoS, SubAckPacket, SubAckReturnCode, SubscribePacket,
    Subscription, UnSubAckPacket, UnsubscribePacket, opt_message_view, opt_string_view,
    PACKET_TYPE_CONNECT, PACKET_TYPE_CONN_ACK, PACKET_TYPE_PING_REQ, PACKET_TYPE_PING_RESP,
    PACKET_TYPE_DISCONNECT, PACKET_TYPE_PUBLISH, PACKET_TYPE_PUB_ACK, PACKET_TYPE_PUB_COMP,
    PACKET_TYPE_PUB_REC, PACKET_TYPE_PUB_REL, PACKET_TYPE_SUBSCRIBE, PACKET_TYPE_SUB_ACK,
    PACKET_TYPE_UNSUBSCRIBE,
};
use crate::wire::{
    decode_remaining_length, read_block, read_string, read_u16, take_u16, window, DecodeError,
};
use vstd::prelude::*;
use vstd::slice::{slice_subrange, slice_to_vec};

verus! {

/// The decoder's result agrees with the spec's outcome on a window.
pub open spec fn agrees<T>(r: Result<T, DecodeError>, s: Result<PacketModel, DecodeError>, view: spec_fn(T) -> PacketModel) -> bool {
    match (r, s) {
        (Ok(p), Ok(sp)) => view(p) == sp,
        (Err(e), Err(se)) => e == se,
        _ => false,
    }
}

fn flags_valid(ptype: u8, f: u8) -> (r: bool)
    ensures
        r == flags_ok(ptype, f),
{
    if ptype == PACKET_TYPE_PUBLISH {
        (f / 2) % 4 != 3
    } else if ptype == PACKET_TYPE_PUB_REL || ptype == PACKET_TYPE_SUBSCRIBE || ptype
        == PACKET_TYPE_UNSUBSCRIBE {
        f == 2
    } else {
        f == 0
    }
}

fn connect_flags_valid(f: u8) -> (r: bool)
    ensures
        r == connect_flags_ok(f),
{
    let will_qos: u8 = (f / 8) % 4;
    let will = (f / 4) % 2 == 1;
    let will_retain = (f / 32) % 2 == 1;
    f % 2 == 0 && will_qos != 3 && (will || (will_qos == 0 && !will_retain)) && ((f / 64) % 2
        == 0 || (f / 128) % 2 == 1)
}

fn read_opt_string(present: bool, buf: &[u8], pos: usize, end: usize) -> (r: Result<
    (Option<String>, usize),
    DecodeError,
>)
    requires
        pos <= end <= buf@.len(),
    ensures
        match (r, take_opt_string(present, window(buf@, pos as int, end as int))) {
            (Ok((v, np)), Ok((sv, rest))) => opt_string_view(v) == sv && pos <= np <= end && rest
                == window(buf@, np as int, end as int),
            (Err(e), Err(se)) => e == se,
            _ => false,
        },
{
    if !present {
        Ok((None, pos))
    } else {
        match read_string(buf, pos, end) {
            Err(e) => Err(e),
            Ok((s, np)) => Ok((Some(s), np)),
        }
    }
}

fn read_will(f: u8, buf: &[u8], pos: usize, end: usize) -> (r: Result<
    (Option<Message>, usize),
    DecodeError,
>)
    requires
        pos <= end <= buf@.len(),
        connect_flags_ok(f),
    ensures
        match (r, take_will(f, window(buf@, pos as int, end as int))) {
            (Ok((v, np)), Ok((sv, rest))) => opt_message_view(v) == sv && pos <= np <= end && rest
                == window(buf@, np as int, end as int),
            (Err(e), Err(se)) => e == se,
            _ => false,
        },
{
    if (f / 4) % 2 != 1 {
        Ok((None, pos))
    } else {
        match read_string(buf, pos, end) {
            Err(e) => Err(e),
            Ok((topic, at1)) => match read_block(buf, at1, end) {
                Err(e) => Err(e),
                Ok((payload, at2)) => {
                    let qos = QoS::from_bits((f / 8) % 4);
                    let retain = (f / 32) % 2 == 1;
                    Ok((Some(Message { topic, payload, qos, retain }), at2))
                },
            },
        }
    }
}

fn decode_connect_payload(level: u8, f: u8, keep_alive: u16, buf: &[u8], pos: usize, end: usize) -> (r:
    Result<ControlPacket, DecodeError>)
    requires
        pos <= end <= buf@.len(),
        connect_flags_ok(f),
    ensures
        agrees(
            r,
            parse_connect_payload(level, f, keep_alive, window(buf@, pos as int, end as int)),
            |p: ControlPacket| p@,
        ),
{
    reveal(parse_connect_payload);
    match read_string(buf, pos, end) {
        Err(e) => Err(e),
        Ok((client_id, at3)) => match read_will(f, buf, at3, end) {
            Err(e) => Err(e),
            Ok((will_message, at4)) => match read_opt_string((f / 128) % 2 == 1, buf, at4, end) {
                Err(e) => Err(e),
                Ok((user_name, at5)) => match read_opt_string((f / 64) % 2 == 1, buf, at5, end) {
                    Err(e) => Err(e),
                    Ok((password, at6)) => {
                        if at6 != end {
                            Err(DecodeError::MalformedPayload)
                        } else {
                            let version = if level == 5 {
                                ProtocolVersion::Mqtt5
                            } else {
                                ProtocolVersion::Mqtt3
                            };
                            Ok(
                                ControlPacket::Connect(
                                    ConnectPacket {
                                        version,
                                        client_id,
                                        keep_alive_seconds: keep_alive,
                                        clean_session: (f / 2) % 2 == 1,
                                        will_message,
                                        user_name,
                                        password,
                                    },
                                ),
                            )
                        }
                    },
                },
            },
        },
    }
}

fn decode_connect(buf: &[u8], pos: usize, end: usize) -> (r: Result<ControlPacket, DecodeError>)
    requires
        pos <= end <= buf@.len(),
    ensures
        agrees(r, parse_connect(window(buf@, pos as int, end as int)), |p: ControlPacket| p@),
{
    match read_block(buf, pos, end) {
        Err(e) => Err(e),
        Ok((_name, at1)) => {
            if end - at1 < 4 {
                return Err(DecodeError::MalformedPayload);
            }
            let level = buf[at1];
            let f = buf[at1 + 1];
            let keep_alive: u16 = (buf[at1 + 2] as u16) * 256 + buf[at1 + 3] as u16;
            let at2: usize = at1 + 4;
            assert(window(buf@, at2 as int, end as int) =~= window(buf@, at1 as int, end as int).subrange(
                4,
                (end - at1) as int,
            ));
            if !connect_flags_valid(f) {
                return Err(DecodeError::MalformedPayload);
            }
            decode_connect_payload(level, f, keep_alive, buf, at2, end)
        },
    }
}

fn decode_publish(f: u8, buf: &[u8], pos: usize, end: usize) -> (r: Result<ControlPacket, DecodeError>)
    requires
        pos <= end <= buf@.len(),
        (f / 2) % 4 != 3,
    ensures
        agrees(r, parse_publish(f, window(buf@, pos as int, end as int)), |p: ControlPacket| p@),
{
    let qos = QoS::from_bits((f / 2) % 4);
    let dup = (f / 8) % 2 == 1;
    let retain = f % 2 == 1;
    match read_string(buf, pos, end) {
        Err(e) => Err(e),
        Ok((topic, at1)) => {
            let (packet_id, at2) = if qos.bits() == 0 {
                (None, at1)
            } else {
                match read_u16(buf, at1, end) {
                    Err(e) => {
                        return Err(e);
                    },
                    Ok((id, at2)) => (Some(id), at2),
                }
            };
            let payload = slice_to_vec(slice_subrange(buf, at2, end));
            Ok(
                ControlPacket::Publish(
                    PublishPacket { packet_id, dup, message: Message { topic, payload, qos, retain } },
                ),
            )
        },
    }
}

/// The outcome of a list decoder, given what it has already read.
pub open spec fn prepend<T>(acc: Seq<T>, r: Result<Seq<T>, DecodeError>) -> Result<Seq<T>, DecodeError> {
    match r {
        Ok(l) => Ok(acc + l),
        Err(e) => Err(e),
    }
}

fn decode_subscription_list(buf: &[u8], pos: usize, end: usize) -> (r: Result<
    Vec<Subscription>,
    DecodeError,
>)
    requires
        pos <= end <= buf@.len(),
    ensures
        match (r, parse_subscription_list(window(buf@, pos as int, end as int))) {
            (Ok(v), Ok(sv)) => subscriptions_view(v@) == sv,
            (Err(e), Err(se)) => e == se,
            _ => false,
        },
{
    let mut subs: Vec<Subscription> = Vec::new();
    let mut p: usize = pos;
    while p < end
        invariant
            pos <= p <= end <= buf@.len(),
            prepend(subscriptions_view(subs@), parse_subscription_list(window(buf@, p as int, end as int)))
                == parse_subscription_list(window(buf@, pos as int, end as int)),
        decreases end - p,
    {
        match read_string(buf, p, end) {
            Err(e) => {
                return Err(e);
            },
            Ok((topic, at1)) => {
                if at1 == end || buf[at1] > 2 {
                    return Err(DecodeError::MalformedPayload);
                }
                let qos = QoS::from_bits(buf[at1]);
                let ghost before = subscriptions_view(subs@);
                proof {
                    let w = window(buf@, at1 as int, end as int);
                    assert(w[0] == buf@[at1 as int]);
                    assert(w.drop_first() =~= window(buf@, at1 + 1, end as int));
                }
                subs.push(Subscription { topic, qos });
                proof {
                    assert(subscriptions_view(subs@) =~= before.push((subs@.last().topic@, qos)));
                    match parse_subscription_list(window(buf@, at1 + 1, end as int)) {
                        Ok(l) => {
                            assert(before + (seq![(subs@.last().topic@, qos)] + l) =~= before.push(
                                (subs@.last().topic@, qos),
                            ) + l);
                        },
                        Err(_) => {},
                    }
                }
                p = at1 + 1;
            },
        }
    }
    proof {
        assert(window(buf@, p as int, end as int).len() == 0);
        assert(subscriptions_view(subs@) + Seq::empty() =~= subscriptions_view(subs@));
    }
    Ok(subs)
}

fn decode_topic_list(buf: &[u8], pos: usize, end: usize) -> (r: Result<Vec<String>, DecodeError>)
    requires
        pos <= end <= buf@.len(),
    ensures
        match (r, parse_topic_list(window(buf@, pos as int, end as int))) {
            (Ok(v), Ok(sv)) => strings_view(v@) == sv,
            (Err(e), Err(se)) => e == se,
            _ => false,
        },
{
    let mut topics: Vec<String> = Vec::new();
    let mut p: usize = pos;
    while p < end
        invariant
            pos <= p <= end <= buf@.len(),
            prepend(strings_view(topics@), parse_topic_list(window(buf@, p as int, end as int)))
                == parse_topic_list(window(buf@, pos as int, end as int)),
        decreases end - p,
    {
        match read_string(buf, p, end) {
            Err(e) => {
                return Err(e);
            },
            Ok((topic, at1)) => {
                let ghost before = strings_view(topics@);
                topics.push(topic);
                proof {
                    assert(strings_view(topics@) =~= before.push(topics@.last()@));
                    match parse_topic_list(window(buf@, at1 as int, end as int)) {
                        Ok(l) => {
                            assert(before + (seq![topics@.last()@] + l) =~= before.push(
                                topics@.last()@,
                            ) + l);
                        },
                        Err(_) => {},
                    }
                }
                p = at1;
            },
        }
    }
    proof {
        assert(window(buf@, p as int, end as int).len() == 0);
        assert(strings_view(topics@) + Seq::empty() =~= strings_view(topics@));
    }
    Ok(topics)
}

fn decode_subscribe(buf: &[u8], pos: usize, end: usize) -> (r: Result<ControlPacket, DecodeError>)
    requires
        pos <= end <= buf@.len(),
    ensures
        agrees(r, parse_subscribe(window(buf@, pos as int, end as int)), |p: ControlPacket| p@),
{
    match read_u16(buf, pos, end) {
        Err(e) => Err(e),
        Ok((packet_id, at1)) => {
            if at1 == end {
                return Err(DecodeError::MalformedPayload);
            }
            match decode_subscription_list(buf, at1, end) {
                Err(e) => Err(e),
                Ok(subscriptions) => Ok(
                    ControlPacket::Subscribe(SubscribePacket { packet_id, subscriptions }),
                ),
            }
        },
    }
}

fn decode_unsubscribe(buf: &[u8], pos: usize, end: usize) -> (r: Result<ControlPacket, DecodeError>)
    requires
        pos <= end <= buf@.len(),
    ensures
        agrees(r, parse_unsubscribe(window(buf@, pos as int, end as int)), |p: ControlPacket| p@),
{
    match read_u16(buf, pos, end) {
        Err(e) => Err(e),
        Ok((packet_id, at1)) => {
            if at1 == end {
                return Err(DecodeError::MalformedPayload);
            }
            match decode_topic_list(buf, at1, end) {
                Err(e) => Err(e),
                Ok(topics) => Ok(ControlPacket::Unsubscribe(UnsubscribePacket { packet_id, topics })),
            }
        },
    }
}

fn decode_suback(buf: &[u8], pos: usize, end: usize) -> (r: Result<ControlPacket, DecodeError>)
    requires
        pos <= end <= buf@.len(),
    ensures
        agrees(r, parse_suback(window(buf@, pos as int, end as int)), |p: ControlPacket| p@),
{
    match read_u16(buf, pos, end) {
        Err(e) => Err(e),
        Ok((packet_id, at1)) => {
            let ghost w = window(buf@, at1 as int, end as int);
            assert(take_u16(window(buf@, pos as int, end as int)) == Ok::<(u16, Seq<u8>), DecodeError>(
                (packet_id, w),
            ));
            let mut codes: Vec<SubAckReturnCode> = Vec::new();
            let mut p: usize = at1;
            while p < end
                invariant
                    at1 <= p <= end <= buf@.len(),
                    w == window(buf@, at1 as int, end as int),
                    take_u16(window(buf@, pos as int, end as int)) == Ok::<(u16, Seq<u8>), DecodeError>(
                        (packet_id, w),
                    ),
                    forall|i: int| 0 <= i < p - at1 ==> is_suback_code_byte(#[trigger] w[i]),
                    codes@ =~= w.subrange(0, p - at1).map_values(|b: u8| suback_code_of_byte(b)),
                decreases end - p,
            {
                if !(buf[p] == 0 || buf[p] == 1 || buf[p] == 2 || buf[p] == 0x80) {
                    assert(w[p - at1] == buf@[p as int]);
                    assert(!is_suback_code_byte(w[p - at1]));
                    assert(take_u16(window(buf@, pos as int, end as int)) == Ok::<
                        (u16, Seq<u8>),
                        DecodeError,
                    >((packet_id, w)));
                    return Err(DecodeError::MalformedPayload);
                }
                codes.push(SubAckReturnCode::from_byte(buf[p]));
                p = p + 1;
                assert(codes@ =~= w.subrange(0, p - at1).map_values(|b: u8| suback_code_of_byte(b)));
            }
            assert(w.subrange(0, p - at1) =~= w);
            Ok(ControlPacket::SubAck(SubAckPacket { packet_id, return_codes: codes }))
        },
    }
}

fn decode_id_only(buf: &[u8], pos: usize, end: usize) -> (r: Result<u16, DecodeError>)
    requires
        pos <= end <= buf@.len(),
    ensures
        match (r, parse_id_only(window(buf@, pos as int, end as int))) {
            (Ok(v), Ok(sv)) => v == sv,
            (Err(e), Err(se)) => e == se,
            _ => false,
        },
{
    if end - pos != 2 {
        Err(DecodeError::MalformedPayload)
    } else {
        Ok((buf[pos] as u16) * 256 + buf[pos + 1] as u16)
    }
}

/// Decodes the body of a packet of type `ptype` with fixed-header flags `f`.
fn decode_body(ptype: u8, f: u8, buf: &[u8], pos: usize, end: usize) -> (r: Result<
    ControlPacket,
    DecodeError,
>)
    requires
        pos <= end <= buf@.len(),
        1 <= ptype <= 14,
        flags_ok(ptype, f),
    ensures
        agrees(r, parse_body(ptype, f, window(buf@, pos as int, end as int)), |p: ControlPacket| p@),
{
    reveal(parse_body);
    if ptype == PACKET_TYPE_CONNECT {
        decode_connect(buf, pos, end)
    } else if ptype == PACKET_TYPE_CONN_ACK {
        if end - pos == 2 && buf[pos] <= 1 && buf[pos + 1] <= 5 {
            Ok(
                ControlPacket::ConnAck(
                    ConnAckPacket {
                        session_present: buf[pos] == 1,
                        return_code: ConnAckReturnCode::from_byte(buf[pos + 1]),
                    },
                ),
            )
        } else {
            Err(DecodeError::MalformedPayload)
        }
    } else if ptype == PACKET_TYPE_PUBLISH {
        decode_publish(f, buf, pos, end)
    } else if ptype == PACKET_TYPE_SUBSCRIBE {
        decode_subscribe(buf, pos, end)
    } else if ptype == PACKET_TYPE_SUB_ACK {
        decode_suback(buf, pos, end)
    } else if ptype == PACKET_TYPE_UNSUBSCRIBE {
        decode_unsubscribe(buf, pos, end)
    } else if ptype == PACKET_TYPE_PING_REQ || ptype == PACKET_TYPE_PING_RESP || ptype
        == PACKET_TYPE_DISCONNECT {
        if end != pos {
            Err(DecodeError::MalformedPayload)
        } else if ptype == PACKET_TYPE_PING_REQ {
            Ok(ControlPacket::PingReq)
        } else if ptype == PACKET_TYPE_PING_RESP {
            Ok(ControlPacket::PingResp)
        } else {
            Ok(ControlPacket::Disconnect(DisconnectPacket {  }))
        }
    } else {
        match decode_id_only(buf, pos, end) {
            Err(e) => Err(e),
            Ok(packet_id) => Ok(
                if ptype == PACKET_TYPE_PUB_ACK {
                    ControlPacket::PubAck(PubAckPacket { packet_id })
                } else if ptype == PACKET_TYPE_PUB_REC {
                    ControlPacket::PubRec(PubRecPacket { packet_id })
                } else if ptype == PACKET_TYPE_PUB_REL {
                    ControlPacket::PubRel(PubRelPacket { packet_id })
                } else if ptype == PACKET_TYPE_PUB_COMP {
                    ControlPacket::PubComp(PubCompPacket { packet_id })
                } else {
                    ControlPacket::UnsubAck(UnSubAckPacket { packet_id })
                },
            ),
        }
    }
}

/// Decodes the packet at the start of `buf`, giving it with the number of
/// bytes it takes, or the reason there is none (`Incomplete` when more
/// bytes could still complete it), exactly as `parse_packet` states.
pub fn read_packet(buf: &[u8]) -> (r: Result<(ControlPacket, usize), DecodeError>)
    ensures
        match (r, parse_packet(buf@)) {
            (Ok((p, n)), Ok((sp, sn))) => p@ == sp && n as nat == sn,
            (Err(e), Err(se)) => e == se,
            _ => false,
        },
{
    if buf.len() == 0 {
        return Err(DecodeError::Incomplete);
    }
    let ptype: u8 = buf[0] / 16;
    let f: u8 = buf[0] % 16;
    if ptype == 0 || ptype == 15 {
        return Err(DecodeError::UnsupportedPacket);
    }
    if !flags_valid(ptype, f) {
        return Err(DecodeError::MalformedHeader);
    }
    let rest = slice_subrange(buf, 1, buf.len());
    assert(rest@ =~= buf@.drop_first());
    match decode_remaining_length(rest) {
        Err(e) => Err(e),
        Ok((len, n)) => {
            if buf.len() - 1 - n < len as usize {
                return Err(DecodeError::Incomplete);
            }
            let start: usize = 1 + n;
            let end: usize = 1 + n + len as usize;
            match decode_body(ptype, f, buf, start, end) {
                Err(e) => Err(e),
                Ok(p) => Ok((p, end)),
            }
        },
    }
}

} // verus!

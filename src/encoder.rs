//! Writes packets to bytes.
use crate::format::{
    codes_bytes, fields_fit, connect_body, connect_flags, opt_string_bytes, packet_body, packet_bytes,
    packet_wf, protocol_level, publish_body, publish_first_byte, subscription_bytes,
    subscriptions_bytes, topics_bytes, protocol_name, will_bytes, first_byte, opt_string_fits,
};
use crate::packets::{
    strings_view, subscriptions_view, ConnectPacket, PacketModel, ControlPacket, ProtocolVersion,
    PublishPacket, SubAckReturnCode, Subscription,
};
use crate::wire::{
    block_bytes, u16_bytes, MAX_REMAINING_LENGTH, encode_remaining_length, string_fits, write_all, write_block, write_string, write_u16,
};
use vstd::prelude::*;

verus! {

fn write_opt_string(o: &Option<String>, out: &mut Vec<u8>)
    requires
        opt_string_fits(crate::packets::opt_string_view(*o)),
    ensures
        final(out)@ == old(out)@ + opt_string_bytes(crate::packets::opt_string_view(*o)),
{
    match o {
        Some(s) => write_string(s.as_str(), out),
        None => {
            assert(out@ =~= old(out)@ + opt_string_bytes(crate::packets::opt_string_view(*o)));
        },
    }
}

fn connect_flags_byte(c: &ConnectPacket) -> (r: u8)
    ensures
        r == connect_flags(c@),
{
    let mut f: u8 = 0;
    if c.clean_session {
        f = f + 2;
    }
    match &c.will_message {
        Some(m) => {
            f = f + 4 + m.qos.bits() * 8;
            if m.retain {
                f = f + 32;
            }
        },
        None => {},
    }
    if c.password.is_some() {
        f = f + 64;
    }
    if c.user_name.is_some() {
        f = f + 128;
    }
    f
}

/// Protocol name, level, flags and keep-alive.
fn write_connect_header(c: &ConnectPacket, out: &mut Vec<u8>)
    ensures
        final(out)@ == old(out)@ + block_bytes(protocol_name()) + seq![
            protocol_level(c@.version),
            connect_flags(c@),
        ] + u16_bytes(c.keep_alive_seconds),
{
    let ghost start = out@;
    write_u16(4, out);
    out.push(0x4D);
    out.push(0x51);
    out.push(0x54);
    out.push(0x54);
    assert(out@ =~= start + block_bytes(protocol_name()));
    let level: u8 = match c.version {
        ProtocolVersion::Mqtt3 => 4,
        ProtocolVersion::Mqtt5 => 5,
    };
    out.push(level);
    out.push(connect_flags_byte(c));
    let ghost mid = out@;
    write_u16(c.keep_alive_seconds, out);
    assert(mid =~= start + block_bytes(protocol_name()) + seq![
        protocol_level(c@.version),
        connect_flags(c@),
    ]);
}

fn write_will(w: &Option<crate::packets::Message>, out: &mut Vec<u8>)
    requires
        match w {
            Some(m) => string_fits(m.topic@) && m.payload@.len() <= 65535,
            None => true,
        },
    ensures
        final(out)@ == old(out)@ + will_bytes(crate::packets::opt_message_view(*w)),
{
    match w {
        Some(m) => {
            write_string(m.topic.as_str(), out);
            write_block(m.payload.as_slice(), out);
            assert(out@ =~= old(out)@ + will_bytes(crate::packets::opt_message_view(*w)));
        },
        None => {
            assert(out@ =~= old(out)@ + will_bytes(crate::packets::opt_message_view(*w)));
        },
    }
}

fn write_connect_body(c: &ConnectPacket, out: &mut Vec<u8>)
    requires
        string_fits(c.client_id@),
        match c.will_message {
            Some(m) => string_fits(m.topic@) && m.payload@.len() <= 65535,
            None => true,
        },
        opt_string_fits(c@.user_name),
        opt_string_fits(c@.password),
    ensures
        final(out)@ == old(out)@ + connect_body(c@),
{
    let ghost start = out@;
    write_connect_header(c, out);
    let ghost a = out@;
    write_string(c.client_id.as_str(), out);
    let ghost b = out@;
    write_will(&c.will_message, out);
    let ghost d = out@;
    write_opt_string(&c.user_name, out);
    let ghost e = out@;
    write_opt_string(&c.password, out);
    assert(out@ =~= start + connect_body(c@));
}

fn write_publish_body(p: &PublishPacket, out: &mut Vec<u8>)
    requires
        string_fits(p.message.topic@),
    ensures
        final(out)@ == old(out)@ + publish_body(p@),
{
    let ghost start = out@;
    write_string(p.message.topic.as_str(), out);
    let ghost mid = out@;
    match p.packet_id {
        Some(id) => write_u16(id, out),
        None => {},
    }
    write_all(p.message.payload.as_slice(), out);
    assert(out@ =~= start + publish_body(p@));
}

fn write_subscriptions(subs: &Vec<Subscription>, out: &mut Vec<u8>)
    requires
        forall|i: int| 0 <= i < subs@.len() ==> string_fits(#[trigger] subs@[i].topic@),
    ensures
        final(out)@ == old(out)@ + subscriptions_bytes(subscriptions_view(subs@)),
{
    let mut i: usize = 0;
    while i < subs.len()
        invariant
            i <= subs@.len(),
            forall|j: int| 0 <= j < subs@.len() ==> string_fits(#[trigger] subs@[j].topic@),
            out@ == old(out)@ + subscriptions_bytes(subscriptions_view(subs@.subrange(0, i as int))),
        decreases subs@.len() - i,
    {
        let ghost before = out@;
        write_string(subs[i].topic.as_str(), out);
        out.push(subs[i].qos.bits());
        proof {
            let pre = subscriptions_view(subs@.subrange(0, i as int));
            let next = subscriptions_view(subs@.subrange(0, i + 1));
            assert(next.drop_last() =~= pre);
            assert(next.last() == subs@[i as int]@);
            assert(out@ =~= before + subscription_bytes(subs@[i as int]@));
        }
        i = i + 1;
    }
    assert(subs@.subrange(0, i as int) =~= subs@);
}

fn write_topics(topics: &Vec<String>, out: &mut Vec<u8>)
    requires
        forall|i: int| 0 <= i < topics@.len() ==> string_fits(#[trigger] topics@[i]@),
    ensures
        final(out)@ == old(out)@ + topics_bytes(strings_view(topics@)),
{
    let mut i: usize = 0;
    while i < topics.len()
        invariant
            i <= topics@.len(),
            forall|j: int| 0 <= j < topics@.len() ==> string_fits(#[trigger] topics@[j]@),
            out@ == old(out)@ + topics_bytes(strings_view(topics@.subrange(0, i as int))),
        decreases topics@.len() - i,
    {
        write_string(topics[i].as_str(), out);
        proof {
            let pre = strings_view(topics@.subrange(0, i as int));
            let next = strings_view(topics@.subrange(0, i + 1));
            assert(next.drop_last() =~= pre);
        }
        i = i + 1;
    }
    assert(topics@.subrange(0, i as int) =~= topics@);
}

fn write_codes(codes: &Vec<SubAckReturnCode>, out: &mut Vec<u8>)
    ensures
        final(out)@ == old(out)@ + codes_bytes(codes@),
{
    let mut i: usize = 0;
    while i < codes.len()
        invariant
            i <= codes@.len(),
            out@ == old(out)@ + codes_bytes(codes@.subrange(0, i as int)),
        decreases codes@.len() - i,
    {
        out.push(codes[i].to_byte());
        i = i + 1;
        assert(out@ =~= old(out)@ + codes_bytes(codes@.subrange(0, i as int)));
    }
    assert(codes@.subrange(0, i as int) =~= codes@);
}

/// The body of a packet, as `packet_body` states it.
fn write_body(packet: &ControlPacket, out: &mut Vec<u8>)
    requires
        fields_fit(packet@),
    ensures
        final(out)@ == old(out)@ + packet_body(packet@),
{
    let ghost start = out@;
    match packet {
        ControlPacket::Connect(c) => write_connect_body(c, out),
        ControlPacket::ConnAck(c) => {
            out.push(if c.session_present {
                1
            } else {
                0
            });
            out.push(c.return_code.to_byte());
        },
        ControlPacket::Publish(p) => write_publish_body(p, out),
        ControlPacket::PubAck(p) => write_u16(p.packet_id, out),
        ControlPacket::PubRec(p) => write_u16(p.packet_id, out),
        ControlPacket::PubRel(p) => write_u16(p.packet_id, out),
        ControlPacket::PubComp(p) => write_u16(p.packet_id, out),
        ControlPacket::Subscribe(s) => {
            write_u16(s.packet_id, out);
            assert forall|i: int| 0 <= i < s.subscriptions@.len() implies string_fits(
                #[trigger] s.subscriptions@[i].topic@,
            ) by {
                assert(subscriptions_view(s.subscriptions@)[i].0 == s.subscriptions@[i].topic@);
            }
            write_subscriptions(&s.subscriptions, out);
        },
        ControlPacket::SubAck(s) => {
            write_u16(s.packet_id, out);
            write_codes(&s.return_codes, out);
        },
        ControlPacket::Unsubscribe(u) => {
            write_u16(u.packet_id, out);
            assert forall|i: int| 0 <= i < u.topics@.len() implies string_fits(
                #[trigger] u.topics@[i]@,
            ) by {
                assert(strings_view(u.topics@)[i] == u.topics@[i]@);
            }
            write_topics(&u.topics, out);
        },
        ControlPacket::UnsubAck(u) => write_u16(u.packet_id, out),
        ControlPacket::PingReq => {},
        ControlPacket::PingResp => {},
        ControlPacket::Disconnect(_) => {},
    }
    assert(out@ =~= start + packet_body(packet@));
}

/// The first byte of a packet, as `first_byte` states it.
fn fixed_header_byte(packet: &ControlPacket) -> (r: u8)
    ensures
        r == first_byte(packet@),
{
    match packet {
        ControlPacket::Connect(_) => 0x10,
        ControlPacket::ConnAck(_) => 0x20,
        ControlPacket::Publish(p) => {
            let mut b: u8 = 0x30 + p.message.qos.bits() * 2;
            if p.dup {
                b = b + 8;
            }
            if p.message.retain {
                b = b + 1;
            }
            assert(b == publish_first_byte(p@));
            b
        },
        ControlPacket::PubAck(_) => 0x40,
        ControlPacket::PubRec(_) => 0x50,
        ControlPacket::PubRel(_) => 0x62,
        ControlPacket::PubComp(_) => 0x70,
        ControlPacket::Subscribe(_) => 0x82,
        ControlPacket::SubAck(_) => 0x90,
        ControlPacket::Unsubscribe(_) => 0xA2,
        ControlPacket::UnsubAck(_) => 0xB0,
        ControlPacket::PingReq => 0xC0,
        ControlPacket::PingResp => 0xD0,
        ControlPacket::Disconnect(_) => 0xE0,
    }
}

/// Encodes a packet: fixed header, Remaining Length computed exactly, body.
pub fn write_packet(packet: &ControlPacket) -> (r: Vec<u8>)
    requires
        packet_wf(packet@),
    ensures
        r@ == packet_bytes(packet@),
{
    let mut body: Vec<u8> = Vec::new();
    write_body(packet, &mut body);
    assert(body@ =~= packet_body(packet@));
    let mut out: Vec<u8> = Vec::new();
    out.push(fixed_header_byte(packet));
    encode_remaining_length(body.len() as u32, &mut out);
    write_all(body.as_slice(), &mut out);
    assert(out@ =~= packet_bytes(packet@));
    out
}

fn opt_fits(o: &Option<String>) -> (r: bool)
    ensures
        r == opt_string_fits(crate::packets::opt_string_view(*o)),
{
    match o {
        Some(s) => s.as_str().as_bytes().len() <= 65535,
        None => true,
    }
}

/// Whether the fields of a packet fit, as `fields_fit` states it.
pub fn fields_fit_check(packet: &ControlPacket) -> (r: bool)
    ensures
        r == fields_fit(packet@),
{
    match packet {
        ControlPacket::Connect(c) => {
            let will_ok = match &c.will_message {
                Some(m) => m.topic.as_str().as_bytes().len() <= 65535 && m.payload.len() <= 65535,
                None => true,
            };
            c.client_id.as_str().as_bytes().len() <= 65535 && will_ok && opt_fits(&c.user_name)
                && opt_fits(&c.password) && (c.password.is_none() || c.user_name.is_some())
        },
        ControlPacket::Publish(p) => {
            p.message.topic.as_str().as_bytes().len() <= 65535 && (p.packet_id.is_some() == (
            p.message.qos.bits() != 0))
        },
        ControlPacket::Subscribe(s) => {
            if s.subscriptions.len() == 0 {
                return false;
            }
            let mut i: usize = 0;
            while i < s.subscriptions.len()
                invariant
                    packet@ == (PacketModel::Subscribe {
                        packet_id: s.packet_id,
                        subscriptions: subscriptions_view(s.subscriptions@),
                    }),
                    i <= s.subscriptions@.len(),
                    forall|j: int| 0 <= j < i ==> string_fits(#[trigger] s.subscriptions@[j].topic@),
                decreases s.subscriptions@.len() - i,
            {
                if s.subscriptions[i].topic.as_str().as_bytes().len() > 65535 {
                    assert(subscriptions_view(s.subscriptions@)[i as int].0 == s.subscriptions@[i as int].topic@);
                    assert(!string_fits(subscriptions_view(s.subscriptions@)[i as int].0));
                    return false;
                }
                i = i + 1;
            }
            assert forall|j: int| 0 <= j < s.subscriptions@.len() implies string_fits(
                #[trigger] subscriptions_view(s.subscriptions@)[j].0,
            ) by {
                assert(subscriptions_view(s.subscriptions@)[j].0 == s.subscriptions@[j].topic@);
            }
            true
        },
        ControlPacket::Unsubscribe(u) => {
            if u.topics.len() == 0 {
                return false;
            }
            let mut i: usize = 0;
            while i < u.topics.len()
                invariant
                    packet@ == (PacketModel::Unsubscribe {
                        packet_id: u.packet_id,
                        topics: strings_view(u.topics@),
                    }),
                    i <= u.topics@.len(),
                    forall|j: int| 0 <= j < i ==> string_fits(#[trigger] u.topics@[j]@),
                decreases u.topics@.len() - i,
            {
                if u.topics[i].as_str().as_bytes().len() > 65535 {
                    assert(strings_view(u.topics@)[i as int] == u.topics@[i as int]@);
                    assert(!string_fits(strings_view(u.topics@)[i as int]));
                    return false;
                }
                i = i + 1;
            }
            assert forall|j: int| 0 <= j < u.topics@.len() implies string_fits(
                #[trigger] strings_view(u.topics@)[j],
            ) by {
                assert(strings_view(u.topics@)[j] == u.topics@[j]@);
            }
            true
        },
        _ => true,
    }
}

/// Encodes a packet where it can be encoded: `None` exactly for a packet
/// that is not well-formed (a field too long for its length prefix, a body
/// too long for the Remaining Length, fields that disagree).
pub fn encode_packet(packet: &ControlPacket) -> (r: Option<Vec<u8>>)
    ensures
        match r {
            Some(b) => packet_wf(packet@) && b@ == packet_bytes(packet@),
            None => !packet_wf(packet@),
        },
{
    if !fields_fit_check(packet) {
        return None;
    }
    let mut body: Vec<u8> = Vec::new();
    write_body(packet, &mut body);
    assert(body@ =~= packet_body(packet@));
    if body.len() > MAX_REMAINING_LENGTH as usize {
        return None;
    }
    let mut out: Vec<u8> = Vec::new();
    out.push(fixed_header_byte(packet));
    encode_remaining_length(body.len() as u32, &mut out);
    write_all(body.as_slice(), &mut out);
    assert(out@ =~= packet_bytes(packet@));
    Some(out)
}

} // verus!

//! What holds of the packet format as a whole: the Remaining Length
//! field's sizes and limit, and that decoding inverts encoding.
use crate::format::{
    codes_bytes, connect_body, connect_flags, connect_flags_ok, first_byte, flag, flags_ok,
    has_bit, opt_string_bytes, opt_string_fits, packet_body, packet_bytes, packet_wf, parse_body,
    parse_connect, parse_connect_payload, parse_packet, parse_publish, parse_subscription_list,
    parse_topic_list, protocol_level, protocol_name, publish_body, publish_first_byte,
    subscription_bytes, subscriptions_bytes, take_opt_string, take_will, topics_bytes,
    version_of_level, will_bytes, will_qos_bits,
};
use crate::packets::{
    connack_code_byte, connack_code_of_byte, is_suback_code_byte, qos_bits, qos_of_bits,
    suback_code_of_byte, ConnectModel, MessageModel, PacketModel, PublishModel, QoS,
};
use crate::wire::{
    block_bytes, pow128, rl_bytes, rl_parse, rl_parse_from, string_bytes, string_fits,
    take_block, take_string, take_u16, u16_bytes, DecodeError, MAX_REMAINING_LENGTH,
};
use vstd::prelude::*;
use vstd::utf8::{encode_utf8, encode_utf8_decode_utf8, encode_utf8_valid_utf8};

verus! {

// ---------------------------------------------------------------------------
// Remaining Length
// ---------------------------------------------------------------------------

proof fn lemma_rl_round_trip_from(n: nat, pre: Seq<u8>, rest: Seq<u8>)
    requires
        pre.len() < 4,
        n < pow128((4 - pre.len()) as nat),
    ensures
        rl_parse_from(pre + rl_bytes(n) + rest, pre.len()) == Ok::<(nat, nat), DecodeError>(
            (n, pre.len() + rl_bytes(n).len()),
        ),
    decreases n,
{
    let s = pre + rl_bytes(n) + rest;
    let i = pre.len();
    reveal_with_fuel(pow128, 2);
    if n < 128 {
        assert(s[i as int] == n as u8);
    } else {
        let b = (n % 128 + 128) as u8;
        let k = (4 - i - 1) as nat;
        assert(pow128((4 - i) as nat) == 128 * pow128(k));
        if k == 0 {
            assert(false);
        }
        assert(n / 128 < pow128(k)) by (nonlinear_arith)
            requires
                n < 128 * pow128(k),
        ;
        let pre2 = pre.push(b);
        assert(pre + rl_bytes(n) + rest =~= pre2 + rl_bytes(n / 128) + rest);
        lemma_rl_round_trip_from(n / 128, pre2, rest);
        assert(s[i as int] == b);
    }
}

/// The Remaining Length field decodes to the value it encodes, whatever
/// follows it.
pub proof fn lemma_rl_round_trip(n: nat, rest: Seq<u8>)
    requires
        n <= MAX_REMAINING_LENGTH,
    ensures
        rl_parse(rl_bytes(n) + rest) == Ok::<(nat, nat), DecodeError>((n, rl_bytes(n).len())),
{
    reveal_with_fuel(pow128, 5);
    let pre = Seq::<u8>::empty();
    assert(pre + rl_bytes(n) + rest =~= rl_bytes(n) + rest);
    lemma_rl_round_trip_from(n, pre, rest);
}

/// The Remaining Length field takes 1 byte below 128, 2 below 16384, 3
/// below 2097152 and 4 below 268435456.
pub proof fn lemma_rl_size(n: nat)
    requires
        n <= MAX_REMAINING_LENGTH,
    ensures
        n < 128 ==> rl_bytes(n).len() == 1,
        128 <= n < 16384 ==> rl_bytes(n).len() == 2,
        16384 <= n < 2097152 ==> rl_bytes(n).len() == 3,
        2097152 <= n < 268435456 ==> rl_bytes(n).len() == 4,
{
    reveal_with_fuel(rl_bytes, 5);
}

/// A Remaining Length whose first four bytes all carry the continuation
/// bit is malformed: the field never takes more than four bytes.
pub proof fn lemma_rl_too_long(s: Seq<u8>)
    requires
        s.len() >= 4,
        forall|i: int| 0 <= i < 4 ==> #[trigger] s[i] >= 128,
    ensures
        rl_parse(s) == Err::<(nat, nat), DecodeError>(DecodeError::MalformedLength),
{
    reveal_with_fuel(rl_parse_from, 5);
    assert(s[0] >= 128 && s[1] >= 128 && s[2] >= 128 && s[3] >= 128);
}

// ---------------------------------------------------------------------------
// Fields
// ---------------------------------------------------------------------------

proof fn lemma_u16_round_trip(v: u16, rest: Seq<u8>)
    ensures
        take_u16(u16_bytes(v) + rest) == Ok::<(u16, Seq<u8>), DecodeError>((v, rest)),
{
    let s = u16_bytes(v) + rest;
    assert(s.subrange(2, s.len() as int) =~= rest);
}

proof fn lemma_block_round_trip(b: Seq<u8>, rest: Seq<u8>)
    requires
        b.len() <= 65535,
    ensures
        take_block(block_bytes(b) + rest) == Ok::<(Seq<u8>, Seq<u8>), DecodeError>((b, rest)),
{
    assert(block_bytes(b) + rest =~= u16_bytes(b.len() as u16) + (b + rest));
    lemma_u16_round_trip(b.len() as u16, b + rest);
    assert((b + rest).subrange(0, b.len() as int) =~= b);
    assert((b + rest).subrange(b.len() as int, (b + rest).len() as int) =~= rest);
}

proof fn lemma_string_round_trip(s: Seq<char>, rest: Seq<u8>)
    requires
        string_fits(s),
    ensures
        take_string(string_bytes(s) + rest) == Ok::<(Seq<char>, Seq<u8>), DecodeError>((s, rest)),
{
    lemma_block_round_trip(encode_utf8(s), rest);
    encode_utf8_valid_utf8(s);
    encode_utf8_decode_utf8(s);
}

// ---------------------------------------------------------------------------
// Bodies
// ---------------------------------------------------------------------------

proof fn lemma_subscriptions_bytes_front(l: Seq<(Seq<char>, QoS)>)
    requires
        l.len() > 0,
    ensures
        subscriptions_bytes(l) == subscription_bytes(l[0]) + subscriptions_bytes(l.drop_first()),
    decreases l.len(),
{
    if l.len() == 1 {
        assert(l.drop_last() =~= Seq::<(Seq<char>, QoS)>::empty());
        assert(l.drop_first() =~= Seq::<(Seq<char>, QoS)>::empty());
        assert(subscriptions_bytes(l) =~= subscription_bytes(l[0]) + subscriptions_bytes(l.drop_first()));
    } else {
        lemma_subscriptions_bytes_front(l.drop_last());
        assert(l.drop_last().drop_first() =~= l.drop_first().drop_last());
        assert(l.drop_first().last() == l.last());
        assert(subscriptions_bytes(l) =~= subscription_bytes(l[0]) + subscriptions_bytes(l.drop_first()));
    }
}

proof fn lemma_topics_bytes_front(l: Seq<Seq<char>>)
    requires
        l.len() > 0,
    ensures
        topics_bytes(l) == string_bytes(l[0]) + topics_bytes(l.drop_first()),
    decreases l.len(),
{
    if l.len() == 1 {
        assert(l.drop_last() =~= Seq::<Seq<char>>::empty());
        assert(l.drop_first() =~= Seq::<Seq<char>>::empty());
        assert(topics_bytes(l) =~= string_bytes(l[0]) + topics_bytes(l.drop_first()));
    } else {
        lemma_topics_bytes_front(l.drop_last());
        assert(l.drop_last().drop_first() =~= l.drop_first().drop_last());
        assert(l.drop_first().last() == l.last());
        assert(topics_bytes(l) =~= string_bytes(l[0]) + topics_bytes(l.drop_first()));
    }
}

proof fn lemma_subscription_list_round_trip(l: Seq<(Seq<char>, QoS)>)
    requires
        forall|i: int| 0 <= i < l.len() ==> string_fits(#[trigger] l[i].0),
    ensures
        parse_subscription_list(subscriptions_bytes(l)) == Ok::<Seq<(Seq<char>, QoS)>, DecodeError>(l),
    decreases l.len(),
{
    if l.len() == 0 {
        assert(subscriptions_bytes(l) =~= Seq::<u8>::empty());
        assert(l =~= Seq::<(Seq<char>, QoS)>::empty());
    } else {
        lemma_subscriptions_bytes_front(l);
        let tail = subscriptions_bytes(l.drop_first());
        let r = seq![qos_bits(l[0].1)] + tail;
        assert(subscriptions_bytes(l) =~= string_bytes(l[0].0) + r);
        assert(string_fits(l[0].0));
        lemma_string_round_trip(l[0].0, r);
        assert(r.drop_first() =~= tail);
        assert forall|i: int| 0 <= i < l.drop_first().len() implies string_fits(
            #[trigger] l.drop_first()[i].0,
        ) by {
            assert(l.drop_first()[i] == l[i + 1]);
        }
        lemma_subscription_list_round_trip(l.drop_first());
        assert(qos_of_bits(qos_bits(l[0].1)) == l[0].1);
        assert(seq![(l[0].0, qos_of_bits(r[0]))] + l.drop_first() =~= l);
    }
}

proof fn lemma_topic_list_round_trip(l: Seq<Seq<char>>)
    requires
        forall|i: int| 0 <= i < l.len() ==> string_fits(#[trigger] l[i]),
    ensures
        parse_topic_list(topics_bytes(l)) == Ok::<Seq<Seq<char>>, DecodeError>(l),
    decreases l.len(),
{
    if l.len() == 0 {
        assert(topics_bytes(l) =~= Seq::<u8>::empty());
        assert(l =~= Seq::<Seq<char>>::empty());
    } else {
        lemma_topics_bytes_front(l);
        let tail = topics_bytes(l.drop_first());
        assert(string_fits(l[0]));
        lemma_string_round_trip(l[0], tail);
        assert forall|i: int| 0 <= i < l.drop_first().len() implies string_fits(
            #[trigger] l.drop_first()[i],
        ) by {
            assert(l.drop_first()[i] == l[i + 1]);
        }
        lemma_topic_list_round_trip(l.drop_first());
        assert(seq![l[0]] + l.drop_first() =~= l);
    }
}

proof fn lemma_connect_flags(c: ConnectModel)
    requires
        c.password is Some ==> c.user_name is Some,
    ensures
        connect_flags_ok(connect_flags(c)),
        has_bit(connect_flags(c), 2) == c.clean_session,
        has_bit(connect_flags(c), 4) == (c.will_message is Some),
        has_bit(connect_flags(c), 64) == (c.password is Some),
        has_bit(connect_flags(c), 128) == (c.user_name is Some),
        c.will_message matches Some(m) ==> qos_of_bits(will_qos_bits(connect_flags(c))) == m.qos
            && has_bit(connect_flags(c), 32) == m.retain,
{
    let f = connect_flags(c);
    let a: u8 = flag(c.clean_session, 2);
    let p: u8 = flag(c.password is Some, 64);
    let u: u8 = flag(c.user_name is Some, 128);
    match c.will_message {
        Some(m) => {
            let q = qos_bits(m.qos);
            let r: u8 = flag(m.retain, 32);
            assert(f == a + 4 + q * 8 + r + p + u);
        },
        None => {
            assert(f == a + p + u);
        },
    }
}

proof fn lemma_opt_string_round_trip(o: Option<Seq<char>>, rest: Seq<u8>)
    requires
        opt_string_fits(o),
    ensures
        take_opt_string(o is Some, opt_string_bytes(o) + rest) == Ok::<
            (Option<Seq<char>>, Seq<u8>),
            DecodeError,
        >((o, rest)),
{
    match o {
        Some(s) => lemma_string_round_trip(s, rest),
        None => {
            assert(opt_string_bytes(o) + rest =~= rest);
        },
    }
}

proof fn lemma_will_round_trip(c: ConnectModel, rest: Seq<u8>)
    requires
        packet_wf(PacketModel::Connect(c)),
    ensures
        take_will(connect_flags(c), will_bytes(c.will_message) + rest) == Ok::<
            (Option<MessageModel>, Seq<u8>),
            DecodeError,
        >((c.will_message, rest)),
{
    lemma_connect_flags(c);
    match c.will_message {
        Some(m) => {
            assert(will_bytes(c.will_message) + rest =~= string_bytes(m.topic) + (block_bytes(
                m.payload,
            ) + rest));
            lemma_string_round_trip(m.topic, block_bytes(m.payload) + rest);
            lemma_block_round_trip(m.payload, rest);
        },
        None => {
            assert(will_bytes(c.will_message) + rest =~= rest);
        },
    }
}

/// The fields after the keep-alive: client id, will, user name, password.
proof fn lemma_connect_payload_round_trip(c: ConnectModel)
    requires
        packet_wf(PacketModel::Connect(c)),
    ensures
        parse_connect_payload(
            protocol_level(c.version),
            connect_flags(c),
            c.keep_alive_seconds,
            string_bytes(c.client_id) + will_bytes(c.will_message) + opt_string_bytes(c.user_name)
                + opt_string_bytes(c.password),
        ) == Ok::<PacketModel, DecodeError>(PacketModel::Connect(c)),
{
    reveal(parse_connect_payload);
    let f = connect_flags(c);
    lemma_connect_flags(c);
    let tail_user = opt_string_bytes(c.user_name) + opt_string_bytes(c.password);
    let tail_will = will_bytes(c.will_message) + tail_user;
    assert(string_bytes(c.client_id) + will_bytes(c.will_message) + opt_string_bytes(c.user_name)
        + opt_string_bytes(c.password) =~= string_bytes(c.client_id) + tail_will);
    lemma_string_round_trip(c.client_id, tail_will);
    lemma_will_round_trip(c, tail_user);
    lemma_opt_string_round_trip(c.user_name, opt_string_bytes(c.password));
    lemma_opt_string_round_trip(c.password, Seq::empty());
    assert(opt_string_bytes(c.password) + Seq::<u8>::empty() =~= opt_string_bytes(c.password));
    assert(version_of_level(protocol_level(c.version)) == c.version);
}

proof fn lemma_connect_round_trip(c: ConnectModel)
    requires
        packet_wf(PacketModel::Connect(c)),
    ensures
        parse_connect(connect_body(c)) == Ok::<PacketModel, DecodeError>(PacketModel::Connect(c)),
{
    let f = connect_flags(c);
    lemma_connect_flags(c);
    lemma_connect_payload_round_trip(c);
    let tail_id = string_bytes(c.client_id) + will_bytes(c.will_message) + opt_string_bytes(
        c.user_name,
    ) + opt_string_bytes(c.password);
    let r1 = seq![protocol_level(c.version), f] + u16_bytes(c.keep_alive_seconds) + tail_id;
    assert(connect_body(c) =~= block_bytes(protocol_name()) + r1);
    lemma_block_round_trip(protocol_name(), r1);
    assert(r1.subrange(4, r1.len() as int) =~= tail_id);
    let keep_alive = (r1[2] as int * 256 + r1[3] as int) as u16;
    assert(keep_alive == c.keep_alive_seconds);
}

proof fn lemma_publish_round_trip(p: PublishModel)
    requires
        packet_wf(PacketModel::Publish(p)),
    ensures
        flags_ok(3, publish_first_byte(p) % 16),
        publish_first_byte(p) / 16 == 3,
        parse_publish(publish_first_byte(p) % 16, publish_body(p)) == Ok::<PacketModel, DecodeError>(
            PacketModel::Publish(p),
        ),
{
    let b = publish_first_byte(p);
    let f = b % 16;
    let q = qos_bits(p.message.qos);
    assert(f == flag(p.dup, 8) + q * 2 + flag(p.message.retain, 1));
    assert((f / 2) % 4 == q);
    assert(qos_of_bits(((f / 2) % 4) as u8) == p.message.qos);
    match p.packet_id {
        Some(id) => {
            let r = u16_bytes(id) + p.message.payload;
            assert(publish_body(p) =~= string_bytes(p.message.topic) + r);
            lemma_string_round_trip(p.message.topic, r);
            lemma_u16_round_trip(id, p.message.payload);
        },
        None => {
            assert(publish_body(p) =~= string_bytes(p.message.topic) + p.message.payload);
            lemma_string_round_trip(p.message.topic, p.message.payload);
        },
    }
}

proof fn lemma_body_round_trip(p: PacketModel)
    requires
        packet_wf(p),
    ensures
        1 <= first_byte(p) / 16 <= 14,
        flags_ok(first_byte(p) / 16, first_byte(p) % 16),
        parse_body(first_byte(p) / 16, first_byte(p) % 16, packet_body(p)) == Ok::<
            PacketModel,
            DecodeError,
        >(p),
{
    reveal(parse_body);
    match p {
        PacketModel::Connect(c) => lemma_connect_round_trip(c),
        PacketModel::ConnAck { session_present, return_code } => {
            assert(connack_code_of_byte(connack_code_byte(return_code)) == return_code);
        },
        PacketModel::Publish(pp) => lemma_publish_round_trip(pp),
        PacketModel::PubAck(id) => {},
        PacketModel::PubRec(id) => {},
        PacketModel::PubRel(id) => {},
        PacketModel::PubComp(id) => {},
        PacketModel::UnsubAck(id) => {},
        PacketModel::Subscribe { packet_id, subscriptions } => {
            lemma_u16_round_trip(packet_id, subscriptions_bytes(subscriptions));
            lemma_subscription_list_round_trip(subscriptions);
            lemma_subscriptions_bytes_front(subscriptions);
        },
        PacketModel::Unsubscribe { packet_id, topics } => {
            lemma_u16_round_trip(packet_id, topics_bytes(topics));
            lemma_topic_list_round_trip(topics);
            lemma_topics_bytes_front(topics);
        },
        PacketModel::SubAck { packet_id, return_codes } => {
            let r = codes_bytes(return_codes);
            lemma_u16_round_trip(packet_id, r);
            assert forall|i: int| 0 <= i < r.len() implies is_suback_code_byte(#[trigger] r[i]) by {
            }
            assert(r.map_values(|b: u8| suback_code_of_byte(b)) =~= return_codes);
        },
        PacketModel::PingReq => {},
        PacketModel::PingResp => {},
        PacketModel::Disconnect => {},
    }
}

/// Decoding inverts encoding: the bytes of a well-formed packet decode to
/// that same packet and take exactly its length, whatever follows them.
pub proof fn lemma_round_trip(p: PacketModel, rest: Seq<u8>)
    requires
        packet_wf(p),
    ensures
        parse_packet(packet_bytes(p) + rest) == Ok::<(PacketModel, nat), DecodeError>(
            (p, packet_bytes(p).len()),
        ),
{
    let body = packet_body(p);
    let s = packet_bytes(p) + rest;
    lemma_body_round_trip(p);
    assert(s.drop_first() =~= rl_bytes(body.len()) + (body + rest));
    lemma_rl_round_trip(body.len(), body + rest);
    let n = rl_bytes(body.len()).len();
    assert(s.subrange(1 + n as int, 1 + n + body.len() as int) =~= body);
    assert(s[0] == first_byte(p));
}

} // verus!

use vstd::prelude::*;

verus! {

pub const PACKET_TYPE_CONNECT: u8 = 1;
pub const PACKET_TYPE_CONN_ACK: u8 = 2;
pub const PACKET_TYPE_PUBLISH: u8 = 3;
pub const PACKET_TYPE_PUB_ACK: u8 = 4;
pub const PACKET_TYPE_PUB_REC: u8 = 5;
pub const PACKET_TYPE_PUB_REL: u8 = 6;
pub const PACKET_TYPE_PUB_COMP: u8 = 7;
pub const PACKET_TYPE_SUBSCRIBE: u8 = 8;
pub const PACKET_TYPE_SUB_ACK: u8 = 9;
pub const PACKET_TYPE_UNSUBSCRIBE: u8 = 10;
pub const PACKET_TYPE_UNSUB_ACK: u8 = 11;
pub const PACKET_TYPE_PING_REQ: u8 = 12;
pub const PACKET_TYPE_PING_RESP: u8 = 13;
pub const PACKET_TYPE_DISCONNECT: u8 = 14;

/// A client identifier, chosen by the client in CONNECT.
pub type ClientId = String;

#[derive(Debug, Clone, Copy, PartialEq, Eq, Structural)]
pub enum ProtocolVersion {
    Mqtt3,
    Mqtt5,
}

#[derive(Debug, Clone, Copy, PartialEq, Eq, Structural)]
pub enum QoS {
    AtMostOnce,
    AtLeastOnce,
    ExactlyOnce,
}

/// The two-bit wire value of a QoS level.
pub open spec fn qos_bits(q: QoS) -> u8 {
    match q {
        QoS::AtMostOnce => 0,
        QoS::AtLeastOnce => 1,
        QoS::ExactlyOnce => 2,
    }
}

/// The QoS level of a wire value; only 0, 1 and 2 name one.
pub open spec fn qos_of_bits(bits: u8) -> QoS
    recommends
        bits <= 2,
{
    if bits == 0 {
        QoS::AtMostOnce
    } else if bits == 1 {
        QoS::AtLeastOnce
    } else {
        QoS::ExactlyOnce
    }
}

impl Default for QoS {
    fn default() -> (r: QoS)
        ensures
            r == QoS::AtMostOnce,
    {
        QoS::AtMostOnce
    }
}

impl Default for ProtocolVersion {
    fn default() -> (r: ProtocolVersion)
        ensures
            r == ProtocolVersion::Mqtt3,
    {
        ProtocolVersion::Mqtt3
    }
}

impl QoS {
    pub fn from_bits(bits: u8) -> (r: QoS)
        requires
            bits <= 2,
        ensures
            r == qos_of_bits(bits),
            qos_bits(r) == bits,
    {
        if bits == 0 {
            QoS::AtMostOnce
        } else if bits == 1 {
            QoS::AtLeastOnce
        } else {
            QoS::ExactlyOnce
        }
    }

    pub fn bits(&self) -> (r: u8)
        ensures
            r == qos_bits(*self),
    {
        match self {
            QoS::AtMostOnce => 0,
            QoS::AtLeastOnce => 1,
            QoS::ExactlyOnce => 2,
        }
    }
}

#[derive(Debug, Clone, Copy, PartialEq, Eq, Structural)]
pub enum ConnAckReturnCode {
    Accepted,
    UnacceptableProtocolVersion,
    IdentifierRejected,
    ServerUnavailable,
    BadUserNameOrPassword,
    NotAuthorized,
}

/// The wire byte of a CONNACK return code.
pub open spec fn connack_code_byte(c: ConnAckReturnCode) -> u8 {
    match c {
        ConnAckReturnCode::Accepted => 0,
        ConnAckReturnCode::UnacceptableProtocolVersion => 1,
        ConnAckReturnCode::IdentifierRejected => 2,
        ConnAckReturnCode::ServerUnavailable => 3,
        ConnAckReturnCode::BadUserNameOrPassword => 4,
        ConnAckReturnCode::NotAuthorized => 5,
    }
}

/// The CONNACK return code of a wire byte; bytes 0 to 5 name one.
pub open spec fn connack_code_of_byte(b: u8) -> ConnAckReturnCode {
    if b == 0 {
        ConnAckReturnCode::Accepted
    } else if b == 1 {
        ConnAckReturnCode::UnacceptableProtocolVersion
    } else if b == 2 {
        ConnAckReturnCode::IdentifierRejected
    } else if b == 3 {
        ConnAckReturnCode::ServerUnavailable
    } else if b == 4 {
        ConnAckReturnCode::BadUserNameOrPassword
    } else {
        ConnAckReturnCode::NotAuthorized
    }
}

impl Default for ConnAckReturnCode {
    fn default() -> (r: ConnAckReturnCode)
        ensures
            r == ConnAckReturnCode::Accepted,
    {
        ConnAckReturnCode::Accepted
    }
}

impl ConnAckReturnCode {
    pub fn to_byte(&self) -> (r: u8)
        ensures
            r == connack_code_byte(*self),
    {
        match self {
            ConnAckReturnCode::Accepted => 0,
            ConnAckReturnCode::UnacceptableProtocolVersion => 1,
            ConnAckReturnCode::IdentifierRejected => 2,
            ConnAckReturnCode::ServerUnavailable => 3,
            ConnAckReturnCode::BadUserNameOrPassword => 4,
            ConnAckReturnCode::NotAuthorized => 5,
        }
    }

    pub fn from_byte(b: u8) -> (r: ConnAckReturnCode)
        requires
            b <= 5,
        ensures
            r == connack_code_of_byte(b),
            connack_code_byte(r) == b,
    {
        if b == 0 {
            ConnAckReturnCode::Accepted
        } else if b == 1 {
            ConnAckReturnCode::UnacceptableProtocolVersion
        } else if b == 2 {
            ConnAckReturnCode::IdentifierRejected
        } else if b == 3 {
            ConnAckReturnCode::ServerUnavailable
        } else if b == 4 {
            ConnAckReturnCode::BadUserNameOrPassword
        } else {
            ConnAckReturnCode::NotAuthorized
        }
    }
}

#[derive(Debug, Clone, Copy, PartialEq, Eq, Structural)]
pub enum SubAckReturnCode {
    SuccessQoS0,
    SuccessQoS1,
    SuccessQoS2,
    Failure,
}

/// The wire byte of a SUBACK return code.
pub open spec fn suback_code_byte(c: SubAckReturnCode) -> u8 {
    match c {
        SubAckReturnCode::SuccessQoS0 => 0x00,
        SubAckReturnCode::SuccessQoS1 => 0x01,
        SubAckReturnCode::SuccessQoS2 => 0x02,
        SubAckReturnCode::Failure => 0x80,
    }
}

/// The bytes that name a SUBACK return code.
pub open spec fn is_suback_code_byte(b: u8) -> bool {
    b == 0x00 || b == 0x01 || b == 0x02 || b == 0x80
}

pub open spec fn suback_code_of_byte(b: u8) -> SubAckReturnCode {
    if b == 0x00 {
        SubAckReturnCode::SuccessQoS0
    } else if b == 0x01 {
        SubAckReturnCode::SuccessQoS1
    } else if b == 0x02 {
        SubAckReturnCode::SuccessQoS2
    } else {
        SubAckReturnCode::Failure
    }
}

/// The SUBACK code that grants a QoS level.
pub open spec fn granted(q: QoS) -> SubAckReturnCode {
    match q {
        QoS::AtMostOnce => SubAckReturnCode::SuccessQoS0,
        QoS::AtLeastOnce => SubAckReturnCode::SuccessQoS1,
        QoS::ExactlyOnce => SubAckReturnCode::SuccessQoS2,
    }
}

impl Default for SubAckReturnCode {
    fn default() -> (r: SubAckReturnCode)
        ensures
            r == SubAckReturnCode::Failure,
    {
        SubAckReturnCode::Failure
    }
}

impl SubAckReturnCode {
    pub fn to_byte(&self) -> (r: u8)
        ensures
            r == suback_code_byte(*self),
    {
        match self {
            SubAckReturnCode::SuccessQoS0 => 0x00,
            SubAckReturnCode::SuccessQoS1 => 0x01,
            SubAckReturnCode::SuccessQoS2 => 0x02,
            SubAckReturnCode::Failure => 0x80,
        }
    }

    pub fn from_byte(b: u8) -> (r: SubAckReturnCode)
        requires
            is_suback_code_byte(b),
        ensures
            r == suback_code_of_byte(b),
            suback_code_byte(r) == b,
    {
        if b == 0x00 {
            SubAckReturnCode::SuccessQoS0
        } else if b == 0x01 {
            SubAckReturnCode::SuccessQoS1
        } else if b == 0x02 {
            SubAckReturnCode::SuccessQoS2
        } else {
            SubAckReturnCode::Failure
        }
    }

    /// The code that grants the requested QoS level.
    pub fn granting(q: QoS) -> (r: SubAckReturnCode)
        ensures
            r == granted(q),
    {
        match q {
            QoS::AtMostOnce => SubAckReturnCode::SuccessQoS0,
            QoS::AtLeastOnce => SubAckReturnCode::SuccessQoS1,
            QoS::ExactlyOnce => SubAckReturnCode::SuccessQoS2,
        }
    }
}

// ---------------------------------------------------------------------------
// Mathematical models of the packets.
// ---------------------------------------------------------------------------

pub struct MessageModel {
    pub topic: Seq<char>,
    pub payload: Seq<u8>,
    pub qos: QoS,
    pub retain: bool,
}

pub struct ConnectModel {
    pub version: ProtocolVersion,
    pub client_id: Seq<char>,
    pub keep_alive_seconds: u16,
    pub clean_session: bool,
    pub will_message: Option<MessageModel>,
    pub user_name: Option<Seq<char>>,
    pub password: Option<Seq<char>>,
}

pub struct PublishModel {
    pub packet_id: Option<u16>,
    pub dup: bool,
    pub message: MessageModel,
}

pub enum PacketModel {
    Connect(ConnectModel),
    ConnAck { session_present: bool, return_code: ConnAckReturnCode },
    Publish(PublishModel),
    PubAck(u16),
    PubRec(u16),
    PubRel(u16),
    PubComp(u16),
    Subscribe { packet_id: u16, subscriptions: Seq<(Seq<char>, QoS)> },
    SubAck { packet_id: u16, return_codes: Seq<SubAckReturnCode> },
    Unsubscribe { packet_id: u16, topics: Seq<Seq<char>> },
    UnsubAck(u16),
    PingReq,
    PingResp,
    Disconnect,
}

// ---------------------------------------------------------------------------
// Executable packets.
// ---------------------------------------------------------------------------

#[derive(Debug, Clone, PartialEq, Eq)]
pub struct Message {
    pub topic: String,
    pub payload: Vec<u8>,
    pub qos: QoS,
    pub retain: bool,
}

impl View for Message {
    type V = MessageModel;

    open spec fn view(&self) -> MessageModel {
        MessageModel { topic: self.topic@, payload: self.payload@, qos: self.qos, retain: self.retain }
    }
}

pub open spec fn opt_string_view(o: Option<String>) -> Option<Seq<char>> {
    match o {
        Some(s) => Some(s@),
        None => None,
    }
}

pub open spec fn opt_message_view(o: Option<Message>) -> Option<MessageModel> {
    match o {
        Some(m) => Some(m@),
        None => None,
    }
}

#[derive(Debug, Clone, PartialEq, Eq)]
pub struct ConnectPacket {
    pub version: ProtocolVersion,
    pub client_id: ClientId,
    pub keep_alive_seconds: u16,
    pub clean_session: bool,
    pub will_message: Option<Message>,
    pub user_name: Option<String>,
    pub password: Option<String>,
}

impl View for ConnectPacket {
    type V = ConnectModel;

    open spec fn view(&self) -> ConnectModel {
        ConnectModel {
            version: self.version,
            client_id: self.client_id@,
            keep_alive_seconds: self.keep_alive_seconds,
            clean_session: self.clean_session,
            will_message: opt_message_view(self.will_message),
            user_name: opt_string_view(self.user_name),
            password: opt_string_view(self.password),
        }
    }
}

impl ConnectPacket {
    pub fn new(
        version: ProtocolVersion,
        client_id: String,
        keep_alive_seconds: u16,
        clean_session: bool,
        will_message: Option<Message>,
        user_name: Option<String>,
        password: Option<String>,
    ) -> (r: Self)
        ensures
            r.version == version,
            r.client_id == client_id,
            r.keep_alive_seconds == keep_alive_seconds,
            r.clean_session == clean_session,
            r.will_message == will_message,
            r.user_name == user_name,
            r.password == password,
    {
        ConnectPacket {
            version,
            client_id,
            keep_alive_seconds,
            clean_session,
            will_message,
            user_name,
            password,
        }
    }
}

#[derive(Debug, Clone, Copy, PartialEq, Eq, Structural)]
pub struct ConnAckPacket {
    pub session_present: bool,
    pub return_code: ConnAckReturnCode,
}

impl Default for ConnAckPacket {
    fn default() -> (r: ConnAckPacket)
        ensures
            !r.session_present,
            r.return_code == ConnAckReturnCode::Accepted,
    {
        ConnAckPacket { session_present: false, return_code: ConnAckReturnCode::Accepted }
    }
}

impl ConnAckPacket {
    pub fn new(session_present: bool, return_code: ConnAckReturnCode) -> (r: Self)
        ensures
            r.session_present == session_present,
            r.return_code == return_code,
    {
        ConnAckPacket { session_present, return_code }
    }
}

#[derive(Debug, Clone, PartialEq, Eq)]
pub struct PublishPacket {
    pub packet_id: Option<u16>,
    pub dup: bool,
    pub message: Message,
}

impl View for PublishPacket {
    type V = PublishModel;

    open spec fn view(&self) -> PublishModel {
        PublishModel { packet_id: self.packet_id, dup: self.dup, message: self.message@ }
    }
}

impl PublishPacket {
    /// A copy equal to this packet in every field.
    pub fn duplicate(&self) -> (r: PublishPacket)
        ensures
            r@ == self@,
    {
        PublishPacket {
            packet_id: self.packet_id,
            dup: self.dup,
            message: Message {
                topic: self.message.topic.clone(),
                payload: vstd::slice::slice_to_vec(self.message.payload.as_slice()),
                qos: self.message.qos,
                retain: self.message.retain,
            },
        }
    }

    pub fn new(
        topic: String,
        body: Vec<u8>,
        qos: QoS,
        retain: bool,
        packet_id: Option<u16>,
        dup: bool,
    ) -> (r: Self)
        ensures
            r.message.topic == topic,
            r.message.payload == body,
            r.message.qos == qos,
            r.message.retain == retain,
            r.packet_id == packet_id,
            r.dup == dup,
    {
        PublishPacket { packet_id, dup, message: Message { topic, payload: body, qos, retain } }
    }
}

#[derive(Debug, Clone, Copy, PartialEq, Eq, Structural)]
pub struct PubAckPacket {
    pub packet_id: u16,
}

impl PubAckPacket {
    pub fn new(packet_id: u16) -> (r: Self)
        ensures
            r.packet_id == packet_id,
    {
        PubAckPacket { packet_id }
    }
}

#[derive(Debug, Clone, Copy, PartialEq, Eq, Structural)]
pub struct PubRecPacket {
    pub packet_id: u16,
}

impl PubRecPacket {
    pub fn new(packet_id: u16) -> (r: Self)
        ensures
            r.packet_id == packet_id,
    {
        PubRecPacket { packet_id }
    }
}

#[derive(Debug, Clone, Copy, PartialEq, Eq, Structural)]
pub struct PubRelPacket {
    pub packet_id: u16,
}

impl PubRelPacket {
    pub fn new(packet_id: u16) -> (r: Self)
        ensures
            r.packet_id == packet_id,
    {
        PubRelPacket { packet_id }
    }
}

#[derive(Debug, Clone, Copy, PartialEq, Eq, Structural)]
pub struct PubCompPacket {
    pub packet_id: u16,
}

impl PubCompPacket {
    pub fn new(packet_id: u16) -> (r: Self)
        ensures
            r.packet_id == packet_id,
    {
        PubCompPacket { packet_id }
    }
}

/// A topic filter with the QoS level requested for it.
#[derive(Debug, Clone, PartialEq, Eq)]
pub struct Subscription {
    pub topic: String,
    pub qos: QoS,
}

impl View for Subscription {
    type V = (Seq<char>, QoS);

    open spec fn view(&self) -> (Seq<char>, QoS) {
        (self.topic@, self.qos)
    }
}

impl Subscription {
    pub fn new(topic: String, qos: QoS) -> (r: Subscription)
        ensures
            r.topic == topic,
            r.qos == qos,
    {
        Subscription { topic, qos }
    }

    pub fn topic(&self) -> (r: &str)
        ensures
            r@ == self.topic@,
    {
        self.topic.as_str()
    }
}

pub open spec fn subscriptions_view(v: Seq<Subscription>) -> Seq<(Seq<char>, QoS)> {
    v.map_values(|s: Subscription| s@)
}

pub open spec fn strings_view(v: Seq<String>) -> Seq<Seq<char>> {
    v.map_values(|s: String| s@)
}

#[derive(Debug, Clone, PartialEq, Eq)]
pub struct SubscribePacket {
    pub packet_id: u16,
    pub subscriptions: Vec<Subscription>,
}

impl SubscribePacket {
    pub fn new(packet_id: u16, subscriptions: Vec<Subscription>) -> (r: Self)
        ensures
            r.packet_id == packet_id,
            r.subscriptions == subscriptions,
    {
        SubscribePacket { packet_id, subscriptions }
    }
}

#[derive(Debug, Clone, PartialEq, Eq)]
pub struct SubAckPacket {
    pub packet_id: u16,
    pub return_codes: Vec<SubAckReturnCode>,
}

impl SubAckPacket {
    pub fn new(packet_id: u16, return_codes: Vec<SubAckReturnCode>) -> (r: Self)
        ensures
            r.packet_id == packet_id,
            r.return_codes == return_codes,
    {
        SubAckPacket { packet_id, return_codes }
    }
}

#[derive(Debug, Clone, PartialEq, Eq)]
pub struct UnsubscribePacket {
    pub packet_id: u16,
    pub topics: Vec<String>,
}

impl UnsubscribePacket {
    pub fn new(packet_id: u16, topics: Vec<String>) -> (r: Self)
        ensures
            r.packet_id == packet_id,
            r.topics == topics,
    {
        UnsubscribePacket { packet_id, topics }
    }
}

#[derive(Debug, Clone, Copy, PartialEq, Eq, Structural)]
pub struct UnSubAckPacket {
    pub packet_id: u16,
}

impl UnSubAckPacket {
    pub fn new(packet_id: u16) -> (r: Self)
        ensures
            r.packet_id == packet_id,
    {
        UnSubAckPacket { packet_id }
    }
}

#[derive(Debug, Clone, Copy, PartialEq, Eq, Structural)]
pub struct PingReqPacket {}

#[derive(Debug, Clone, Copy, PartialEq, Eq, Structural)]
pub struct PingRespPacket {}

#[derive(Debug, Clone, Copy, PartialEq, Eq, Structural)]
pub struct DisconnectPacket {}

#[derive(Debug, Clone, PartialEq, Eq)]
pub enum ControlPacket {
    Connect(ConnectPacket),
    ConnAck(ConnAckPacket),
    Publish(PublishPacket),
    PubAck(PubAckPacket),
    PubRec(PubRecPacket),
    PubRel(PubRelPacket),
    PubComp(PubCompPacket),
    Subscribe(SubscribePacket),
    SubAck(SubAckPacket),
    Unsubscribe(UnsubscribePacket),
    UnsubAck(UnSubAckPacket),
    PingReq,
    PingResp,
    Disconnect(DisconnectPacket),
}

impl View for ControlPacket {
    type V = PacketModel;

    open spec fn view(&self) -> PacketModel {
        match self {
            ControlPacket::Connect(c) => PacketModel::Connect(c@),
            ControlPacket::ConnAck(c) => PacketModel::ConnAck {
                session_present: c.session_present,
                return_code: c.return_code,
            },
            ControlPacket::Publish(p) => PacketModel::Publish(p@),
            ControlPacket::PubAck(p) => PacketModel::PubAck(p.packet_id),
            ControlPacket::PubRec(p) => PacketModel::PubRec(p.packet_id),
            ControlPacket::PubRel(p) => PacketModel::PubRel(p.packet_id),
            ControlPacket::PubComp(p) => PacketModel::PubComp(p.packet_id),
            ControlPacket::Subscribe(s) => PacketModel::Subscribe {
                packet_id: s.packet_id,
                subscriptions: subscriptions_view(s.subscriptions@),
            },
            ControlPacket::SubAck(s) => PacketModel::SubAck {
                packet_id: s.packet_id,
                return_codes: s.return_codes@,
            },
            ControlPacket::Unsubscribe(u) => PacketModel::Unsubscribe {
                packet_id: u.packet_id,
                topics: strings_view(u.topics@),
            },
            ControlPacket::UnsubAck(u) => PacketModel::UnsubAck(u.packet_id),
            ControlPacket::PingReq => PacketModel::PingReq,
            ControlPacket::PingResp => PacketModel::PingResp,
            ControlPacket::Disconnect(_) => PacketModel::Disconnect,
        }
    }
}

} // verus!

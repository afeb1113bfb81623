//! The reader side of a connection: a CONNECT first, then packets of an
//! established client. What the reader decides is here; reading the socket
//! and sending the events are the transport's.
use crate::authentication::AuthenticationError;
use crate::broker::ClientEvent;
use crate::packets::{ClientId, ControlPacket};
use crate::session::ConnectionId;
use vstd::prelude::*;

verus! {

#[derive(Debug, Clone, PartialEq, Eq)]
pub enum ReaderState {
    /// Nothing read yet: the first packet must be CONNECT.
    AwaitingConnect,
    /// CONNECT read for this client.
    Connected(ClientId),
    /// The connection is to be closed.
    Closed,
}

/// The user name and password that a CONNECT asks the identity provider to
/// check (a missing password counts as empty), or none.
pub fn credentials(packet: &ControlPacket) -> (r: Option<(String, String)>)
    ensures
        match packet {
            ControlPacket::Connect(cp) => match cp.user_name {
                Some(u) => r matches Some((ru, rp)) && ru@ == u@ && match cp.password {
                    Some(p) => rp@ == p@,
                    None => rp@ == Seq::<char>::empty(),
                },
                None => r is None,
            },
            _ => r is None,
        },
{
    match packet {
        ControlPacket::Connect(cp) => match &cp.user_name {
            Some(u) => {
                let password = match &cp.password {
                    Some(p) => p.clone(),
                    None => String::new(),
                };
                Some((u.clone(), password))
            },
            None => None,
        },
        _ => None,
    }
}

/// One packet read: the next state and the event for the dispatcher, if
/// any. A first packet other than CONNECT closes the connection without a
/// word; CONNECT becomes `Connected`, carrying the verdict on the
/// credentials; later packets go to the dispatcher under the client's id.
pub fn on_packet_read(
    state: ReaderState,
    packet: ControlPacket,
    addr: String,
    conn: ConnectionId,
    auth: Result<(), AuthenticationError>,
) -> (r: (ReaderState, Option<ClientEvent>))
    ensures
        match state {
            ReaderState::AwaitingConnect => match packet {
                ControlPacket::Connect(cp) => r.0 == ReaderState::Connected(cp.client_id)
                    && r.1 == Some(ClientEvent::Connected(cp, addr, conn, auth)),
                _ => r.0 == ReaderState::Closed && r.1 is None,
            },
            ReaderState::Connected(c) => r.0 == ReaderState::Connected(c) && r.1 == Some(
                ClientEvent::ControlPacket(c, packet, conn),
            ),
            ReaderState::Closed => r.0 == ReaderState::Closed && r.1 is None,
        },
{
    match state {
        ReaderState::AwaitingConnect => match packet {
            ControlPacket::Connect(cp) => {
                let id = cp.client_id.clone();
                (ReaderState::Connected(id), Some(ClientEvent::Connected(cp, addr, conn, auth)))
            },
            _ => (ReaderState::Closed, None),
        },
        ReaderState::Connected(c) => {
            let id = c.clone();
            (ReaderState::Connected(c), Some(ClientEvent::ControlPacket(id, packet, conn)))
        },
        ReaderState::Closed => (ReaderState::Closed, None),
    }
}

/// The connection ended (end of stream, a read error, or a malformed
/// packet): an established client's loss is reported to the dispatcher.
pub fn on_read_end(state: ReaderState) -> (r: Option<ClientEvent>)
    ensures
        match state {
            ReaderState::Connected(c) => r == Some(ClientEvent::ConnectionLost(c)),
            _ => r is None,
        },
{
    match state {
        ReaderState::Connected(c) => Some(ClientEvent::ConnectionLost(c)),
        _ => None,
    }
}

} // verus!

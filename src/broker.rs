//! The broker dispatcher: the single owner of sessions and subscriptions.
//! Each client event is a step from one state to the next that also yields
//! the actions (packets to send, connections to close) for the transport
//! to carry out.
use crate::authentication::AuthenticationError;
use crate::packets::{
    granted, subscriptions_view, ClientId, ConnAckPacket, ConnAckReturnCode, ConnectModel,
    ConnectPacket, ControlPacket, PacketModel, PublishModel, PublishPacket, QoS, SubAckPacket,
    SubAckReturnCode, SubscribePacket, UnSubAckPacket, UnsubscribePacket,
};
use crate::session::{ConnectionId, Session, SessionModel, SessionRepository};
use crate::trie::{
    distinct_names, entries_of, entries_of_client, names, str_levels, subscribers,
    SubscriptionEntry, SubscriptionsRepository,
};
use vstd::prelude::*;

verus! {

#[derive(Debug, Clone)]
pub enum ServerEvent {
    ControlPacket(ControlPacket),
    Disconnect,
}

pub enum EventModel {
    Send(PacketModel),
    Disconnect,
}

impl View for ServerEvent {
    type V = EventModel;

    open spec fn view(&self) -> EventModel {
        match self {
            ServerEvent::ControlPacket(p) => EventModel::Send(p@),
            ServerEvent::Disconnect => EventModel::Disconnect,
        }
    }
}

/// What the transport is to do: hand `event` to connection `connection`.
#[derive(Debug, Clone)]
pub struct Action {
    pub connection: ConnectionId,
    pub event: ServerEvent,
}

pub struct ActionModel {
    pub connection: ConnectionId,
    pub event: EventModel,
}

impl View for Action {
    type V = ActionModel;

    open spec fn view(&self) -> ActionModel {
        ActionModel { connection: self.connection, event: self.event@ }
    }
}

impl Action {
    pub fn new(connection: ConnectionId, event: ServerEvent) -> (r: Action)
        ensures
            r.connection == connection,
            r.event == event,
    {
        Action { connection, event }
    }
}

pub open spec fn actions_view(v: Seq<Action>) -> Seq<ActionModel> {
    v.map_values(|a: Action| a@)
}

/// What reaches the dispatcher from the connections.
pub enum ClientEvent {
    /// A connection's first packet, a CONNECT, with the peer's address, the
    /// connection, and what the identity provider said of the credentials
    /// (`Ok` where the packet carries none).
    Connected(ConnectPacket, String, ConnectionId, Result<(), AuthenticationError>),
    /// A later packet of an established client.
    ControlPacket(ClientId, ControlPacket, ConnectionId),
    Disconnected(ClientId),
    ConnectionLost(ClientId),
}

/// The dispatcher's state in the abstract.
pub struct BrokerModel {
    pub sessions: Map<Seq<char>, SessionModel>,
    pub subscriptions: Set<SubscriptionEntry>,
}

pub open spec fn send(connection: ConnectionId, p: PacketModel) -> ActionModel {
    ActionModel { connection, event: EventModel::Send(p) }
}

/// CONNECT: credentials that the identity provider refused get CONNACK
/// NotAuthorized and a disconnect, and change nothing. Otherwise the
/// client's session is (re)created for this connection, a clean session
/// drops the client's subscriptions, and CONNACK Accepted says whether a
/// session was resumed.
pub open spec fn connect_step(
    o: BrokerModel,
    cp: ConnectModel,
    addr: Seq<char>,
    conn: ConnectionId,
    auth_ok: bool,
    now: u64,
) -> (BrokerModel, Seq<ActionModel>) {
    if cp.user_name is Some && !auth_ok {
        (
            o,
            seq![
                send(conn, PacketModel::ConnAck { session_present: false, return_code: ConnAckReturnCode::NotAuthorized }),
                ActionModel { connection: conn, event: EventModel::Disconnect },
            ],
        )
    } else {
        let present = o.sessions.contains_key(cp.client_id) && !cp.clean_session;
        let session = SessionModel {
            remote_addr: addr,
            persistent: !cp.clean_session,
            connection: conn,
            keep_alive_seconds: cp.keep_alive_seconds,
            last_activity: now,
        };
        (
            BrokerModel {
                sessions: o.sessions.insert(cp.client_id, session),
                subscriptions: if cp.clean_session {
                    o.subscriptions.difference(entries_of_client(cp.client_id))
                } else {
                    o.subscriptions
                },
            },
            seq![send(conn, PacketModel::ConnAck { session_present: present, return_code: ConnAckReturnCode::Accepted })],
        )
    }
}

/// The subscriptions of `c` to each requested filter.
pub open spec fn requested(c: Seq<char>, subs: Seq<(Seq<char>, QoS)>) -> Set<SubscriptionEntry> {
    Set::new(
        |e: SubscriptionEntry|
            e.0 == c && exists|i: int| 0 <= i < subs.len() && e.1 == str_levels(#[trigger] subs[i].0),
    )
}

/// DISCONNECT, or a lost connection: the session goes, and so do its
/// subscriptions unless it was persistent.
pub open spec fn disconnect_step(o: BrokerModel, c: Seq<char>) -> BrokerModel {
    BrokerModel {
        sessions: o.sessions.remove(c),
        subscriptions: if o.sessions.contains_key(c) && !o.sessions[c].persistent {
            o.subscriptions.difference(entries_of_client(c))
        } else {
            o.subscriptions
        },
    }
}

/// A packet other than PUBLISH from client `c` on connection `conn`:
/// SUBSCRIBE adds the subscriptions and is answered by SUBACK granting each
/// requested QoS; UNSUBSCRIBE removes them and is answered by UNSUBACK;
/// PINGREQ gets PINGRESP, or a disconnect where the client has no session;
/// DISCONNECT ends the session; anything else is ignored.
pub open spec fn packet_step(o: BrokerModel, c: Seq<char>, p: PacketModel, conn: ConnectionId) -> (
    BrokerModel,
    Seq<ActionModel>,
) {
    match p {
        PacketModel::Subscribe { packet_id, subscriptions } => (
            BrokerModel {
                sessions: o.sessions,
                subscriptions: o.subscriptions.union(requested(c, subscriptions)),
            },
            seq![
                send(conn, PacketModel::SubAck {
                    packet_id,
                    return_codes: subscriptions.map_values(|s: (Seq<char>, QoS)| granted(s.1)),
                }),
            ],
        ),
        PacketModel::Unsubscribe { packet_id, topics } => (
            BrokerModel {
                sessions: o.sessions,
                subscriptions: o.subscriptions.difference(entries_of(c, topics)),
            },
            seq![send(conn, PacketModel::UnsubAck(packet_id))],
        ),
        PacketModel::PingReq => (
            o,
            if o.sessions.contains_key(c) {
                seq![send(conn, PacketModel::PingResp)]
            } else {
                seq![ActionModel { connection: conn, event: EventModel::Disconnect }]
            },
        ),
        PacketModel::Disconnect => (disconnect_step(o, c), Seq::empty()),
        _ => (o, Seq::empty()),
    }
}

/// Traffic from client `c` at time `now` marks its session as active.
pub open spec fn touch_step(o: BrokerModel, c: Seq<char>, now: u64) -> BrokerModel {
    if o.sessions.contains_key(c) {
        BrokerModel {
            sessions: o.sessions.insert(c, SessionModel { last_activity: now, ..o.sessions[c] }),
            subscriptions: o.subscriptions,
        }
    } else {
        o
    }
}

/// The clients that a publication on `topic` goes to: those with a
/// matching subscription and a session.
pub open spec fn recipients(o: BrokerModel, topic: Seq<char>) -> Set<Seq<char>> {
    subscribers(o.subscriptions, str_levels(topic)).filter(|c: Seq<char>| o.sessions.contains_key(c))
}

/// PUBLISH: one copy of the packet to each recipient's connection, in some
/// order, and to no one else.
pub open spec fn publish_actions(o: BrokerModel, p: PublishModel, acts: Seq<ActionModel>) -> bool {
    exists|rs: Seq<Seq<char>>|
        #![trigger rs.to_set()]
        rs.no_duplicates() && rs.to_set() == recipients(o, p.message.topic) && acts == rs.map_values(
            |c: Seq<char>| send(o.sessions[c].connection, PacketModel::Publish(p)),
        )
}

pub struct MessagingService {
    sessions: SessionRepository,
    subscriptions: SubscriptionsRepository,
}

impl MessagingService {
    pub closed spec fn view(&self) -> BrokerModel {
        BrokerModel { sessions: self.sessions@, subscriptions: self.subscriptions@ }
    }

    pub closed spec fn wf(&self) -> bool {
        self.sessions.wf() && self.subscriptions.wf()
    }

    pub fn new() -> (r: Self)
        ensures
            r.wf(),
            r@.sessions == Map::<Seq<char>, SessionModel>::empty(),
            r@.subscriptions == Set::<SubscriptionEntry>::empty(),
    {
        MessagingService { sessions: SessionRepository::new(), subscriptions: SubscriptionsRepository::new() }
    }

    pub fn session_exists(&self, client_id: &ClientId) -> (r: bool)
        requires
            self.wf(),
        ensures
            r == self@.sessions.contains_key(client_id@),
    {
        self.sessions.contains(client_id)
    }

    pub fn session_count(&self) -> (r: usize)
        requires
            self.wf(),
        ensures
            r == self@.sessions.dom().len(),
    {
        self.sessions.count()
    }

    pub fn session_get(&self, client_id: &ClientId) -> (r: Option<&Session>)
        requires
            self.wf(),
        ensures
            match r {
                Some(s) => self@.sessions.contains_key(client_id@) && self@.sessions[client_id@] == s@,
                None => !self@.sessions.contains_key(client_id@),
            },
    {
        self.sessions.get(client_id)
    }

    /// The clients whose keep-alive has run out at time `now`.
    pub fn session_get_keep_alive_expired(&self, now: u64) -> (r: Vec<ClientId>)
        requires
            self.wf(),
        ensures
            forall|c: Seq<char>|
                #[trigger] names(r@).contains(c) <==> self@.sessions.contains_key(c)
                    && crate::session::keep_alive_expired(
                    self@.sessions[c].keep_alive_seconds,
                    self@.sessions[c].last_activity,
                    now,
                ),
    {
        self.sessions.keep_alive_expired(now)
    }

    /// Marks the client's session as active at time `now`.
    pub fn record_activity(&mut self, client_id: &ClientId, now: u64)
        requires
            old(self).wf(),
        ensures
            final(self).wf(),
            final(self)@ == touch_step(old(self)@, client_id@, now),
    {
        self.sessions.touch(client_id, now);
    }

    pub fn on_connect(
        &mut self,
        packet: ConnectPacket,
        addr: String,
        conn: ConnectionId,
        auth: Result<(), AuthenticationError>,
        now: u64,
    ) -> (r: Vec<Action>)
        requires
            old(self).wf(),
        ensures
            final(self).wf(),
            (final(self)@, actions_view(r@)) == connect_step(
                old(self)@,
                packet@,
                addr@,
                conn,
                auth is Ok,
                now,
            ),
    {
        let mut acts: Vec<Action> = Vec::new();
        let refused = match auth {
            Ok(()) => false,
            Err(_) => true,
        };
        if packet.user_name.is_some() && refused {
            let ack = ConnAckPacket { session_present: false, return_code: ConnAckReturnCode::NotAuthorized };
            acts.push(Action { connection: conn, event: ServerEvent::ControlPacket(ControlPacket::ConnAck(ack)) });
            acts.push(Action { connection: conn, event: ServerEvent::Disconnect });
            assert(actions_view(acts@) =~= connect_step(old(self)@, packet@, addr@, conn, auth is Ok, now).1);
            return acts;
        }
        let existed = self.sessions.contains(&packet.client_id);
        if packet.clean_session {
            self.subscriptions.disconnected(&packet.client_id);
        }
        let present = existed && !packet.clean_session;
        let session = Session::new(
            packet.client_id.clone(),
            addr,
            !packet.clean_session,
            conn,
            packet.keep_alive_seconds,
            now,
        );
        self.sessions.insert(session);
        let ack = ConnAckPacket { session_present: present, return_code: ConnAckReturnCode::Accepted };
        acts.push(Action { connection: conn, event: ServerEvent::ControlPacket(ControlPacket::ConnAck(ack)) });
        assert(actions_view(acts@) =~= connect_step(old(self)@, packet@, addr@, conn, auth is Ok, now).1);
        acts
    }

    /// DISCONNECT or a lost connection of client `client_id`.
    pub fn disconnect(&mut self, client_id: &ClientId) -> (r: Option<Session>)
        requires
            old(self).wf(),
        ensures
            final(self).wf(),
            final(self)@ == disconnect_step(old(self)@, client_id@),
            match r {
                Some(s) => old(self)@.sessions.contains_key(client_id@) && old(self)@.sessions[client_id@] == s@,
                None => !old(self)@.sessions.contains_key(client_id@),
            },
    {
        let removed = self.sessions.delete(client_id);
        match &removed {
            Some(s) => {
                if !s.persistent {
                    self.subscriptions.disconnected(client_id);
                }
            },
            None => {},
        }
        removed
    }

    /// A lost connection ends the session as DISCONNECT does.
    pub fn connection_lost(&mut self, client_id: &ClientId) -> (r: Option<Session>)
        requires
            old(self).wf(),
        ensures
            final(self).wf(),
            final(self)@ == disconnect_step(old(self)@, client_id@),
    {
        self.disconnect(client_id)
    }

    pub fn subscribe(&mut self, client_id: &ClientId, subscribe: &SubscribePacket, conn: ConnectionId) -> (r: Vec<Action>)
        requires
            old(self).wf(),
        ensures
            final(self).wf(),
            (final(self)@, actions_view(r@)) == packet_step(
                old(self)@,
                client_id@,
                ControlPacket::Subscribe(*subscribe)@,
                conn,
            ),
    {
        let ghost reqs = subscriptions_view(subscribe.subscriptions@);
        let mut codes: Vec<SubAckReturnCode> = Vec::new();
        let mut i: usize = 0;
        while i < subscribe.subscriptions.len()
            invariant
                self.wf(),
                i <= subscribe.subscriptions@.len(),
                reqs == subscriptions_view(subscribe.subscriptions@),
                self@.sessions == old(self)@.sessions,
                self@.subscriptions == old(self)@.subscriptions.union(
                    requested(client_id@, reqs.subrange(0, i as int)),
                ),
                codes@ == reqs.subrange(0, i as int).map_values(|s: (Seq<char>, QoS)| granted(s.1)),
            decreases subscribe.subscriptions@.len() - i,
        {
            let code = self.subscriptions.subscribe(client_id, &subscribe.subscriptions[i]);
            codes.push(code);
            proof {
                let pre = reqs.subrange(0, i as int);
                let nxt = reqs.subrange(0, i + 1);
                assert(nxt[i as int] == subscribe.subscriptions@[i as int]@);
                assert(requested(client_id@, nxt) =~= requested(client_id@, pre).insert(
                    (client_id@, str_levels(subscribe.subscriptions@[i as int].topic@)),
                )) by {
                    assert forall|e: SubscriptionEntry| requested(client_id@, nxt).contains(e) implies requested(client_id@, pre).insert(
                        (client_id@, str_levels(subscribe.subscriptions@[i as int].topic@)),
                    ).contains(e) by {
                        let k = choose|k: int| 0 <= k < nxt.len() && e.1 == str_levels(#[trigger] nxt[k].0);
                        if k < i {
                            assert(pre[k] == nxt[k]);
                        }
                    }
                    assert forall|e: SubscriptionEntry| requested(client_id@, pre).insert(
                        (client_id@, str_levels(subscribe.subscriptions@[i as int].topic@)),
                    ).contains(e) implies requested(client_id@, nxt).contains(e) by {
                        if e != (client_id@, str_levels(subscribe.subscriptions@[i as int].topic@)) {
                            let k = choose|k: int| 0 <= k < pre.len() && e.1 == str_levels(#[trigger] pre[k].0);
                            assert(nxt[k] == pre[k]);
                        } else {
                            assert(e.1 == str_levels(nxt[i as int].0));
                        }
                    }
                }
                assert(self@.subscriptions =~= old(self)@.subscriptions.union(requested(client_id@, nxt)));
                assert(codes@ =~= nxt.map_values(|s: (Seq<char>, QoS)| granted(s.1)));
            }
            i = i + 1;
        }
        assert(reqs.subrange(0, i as int) =~= reqs);
        let ack = SubAckPacket { packet_id: subscribe.packet_id, return_codes: codes };
        let mut acts: Vec<Action> = Vec::new();
        acts.push(Action { connection: conn, event: ServerEvent::ControlPacket(ControlPacket::SubAck(ack)) });
        assert(actions_view(acts@) =~= packet_step(old(self)@, client_id@, ControlPacket::Subscribe(*subscribe)@, conn).1);
        assert(self@ == packet_step(old(self)@, client_id@, ControlPacket::Subscribe(*subscribe)@, conn).0);
        acts
    }

    pub fn unsubscribe(&mut self, client_id: &ClientId, unsubscribe: &UnsubscribePacket, conn: ConnectionId) -> (r: Vec<Action>)
        requires
            old(self).wf(),
        ensures
            final(self).wf(),
            (final(self)@, actions_view(r@)) == packet_step(
                old(self)@,
                client_id@,
                ControlPacket::Unsubscribe(*unsubscribe)@,
                conn,
            ),
    {
        self.subscriptions.unsubscribe(client_id, &unsubscribe.topics);
        let mut acts: Vec<Action> = Vec::new();
        let ack = UnSubAckPacket { packet_id: unsubscribe.packet_id };
        acts.push(Action { connection: conn, event: ServerEvent::ControlPacket(ControlPacket::UnsubAck(ack)) });
        assert(actions_view(acts@) =~= packet_step(old(self)@, client_id@, ControlPacket::Unsubscribe(*unsubscribe)@, conn).1);
        acts
    }

    pub fn on_ping_req(&self, client_id: &ClientId, conn: ConnectionId) -> (r: Vec<Action>)
        requires
            self.wf(),
        ensures
            (self@, actions_view(r@)) == packet_step(self@, client_id@, PacketModel::PingReq, conn),
    {
        let mut acts: Vec<Action> = Vec::new();
        if self.sessions.contains(client_id) {
            acts.push(Action { connection: conn, event: ServerEvent::ControlPacket(ControlPacket::PingResp) });
        } else {
            acts.push(Action { connection: conn, event: ServerEvent::Disconnect });
        }
        assert(actions_view(acts@) =~= packet_step(self@, client_id@, PacketModel::PingReq, conn).1);
        acts
    }

    /// One copy of the publication for each recipient, each recipient once
    /// even where several of its filters match.
    pub fn publish(&self, publish: &PublishPacket) -> (r: Vec<Action>)
        requires
            self.wf(),
        ensures
            publish_actions(self@, publish@, actions_view(r@)),
    {
        let subscribed = self.subscriptions.subscribed_clients(&publish.message.topic);
        let clients = match subscribed {
            Some(v) => v,
            None => Vec::new(),
        };
        let ghost subs = subscribers(self@.subscriptions, str_levels(publish.message.topic@));
        let mut acts: Vec<Action> = Vec::new();
        let ghost mut rs: Seq<Seq<char>> = Seq::empty();
        let mut i: usize = 0;
        while i < clients.len()
            invariant
                self.wf(),
                i <= clients@.len(),
                distinct_names(clients@),
                names(clients@) == subs,
                subs == subscribers(self@.subscriptions, str_levels(publish.message.topic@)),
                rs.no_duplicates(),
                forall|c: Seq<char>| #[trigger] rs.contains(c) <==> (exists|k: int| 0 <= k < i && (#[trigger] clients@[k])@ == c) && self@.sessions.contains_key(c),
                actions_view(acts@) == rs.map_values(
                    |c: Seq<char>| send(self@.sessions[c].connection, PacketModel::Publish(publish@)),
                ),
            decreases clients@.len() - i,
        {
            let ghost before = rs;
            let ghost old_acts = acts@;
            match self.sessions.get(&clients[i]) {
                Some(session) => {
                    let copy = publish.duplicate();
                    acts.push(Action { connection: session.connection, event: ServerEvent::ControlPacket(ControlPacket::Publish(copy)) });
                    proof {
                        let c = clients@[i as int]@;
                        assert(!before.contains(c)) by {
                            if before.contains(c) {
                                let k = choose|k: int| 0 <= k < i && (#[trigger] clients@[k])@ == c;
                                assert(clients@[k]@ != clients@[i as int]@);
                            }
                        }
                        rs = before.push(c);
                        assert forall|a: int, b: int| 0 <= a < rs.len() && 0 <= b < rs.len() && a != b implies rs[a] != rs[b] by {
                            if a == before.len() {
                                assert(rs[b] == before[b]);
                                assert(before.contains(before[b]));
                            } else if b == before.len() {
                                assert(rs[a] == before[a]);
                                assert(before.contains(before[a]));
                            } else {
                                assert(rs[a] == before[a] && rs[b] == before[b]);
                            }
                        }
                        assert forall|d: Seq<char>| #[trigger] rs.contains(d) <==> (exists|k: int| 0 <= k < i + 1 && (#[trigger] clients@[k])@ == d) && self@.sessions.contains_key(d) by {
                            crate::trie::lemma_push_contains(before, c, d);
                            if exists|k: int| 0 <= k < i + 1 && (#[trigger] clients@[k])@ == d {
                                let k = choose|k: int| 0 <= k < i + 1 && (#[trigger] clients@[k])@ == d;
                                if k < i {
                                }
                            }
                        }
                        let f = |c: Seq<char>| send(self@.sessions[c].connection, PacketModel::Publish(publish@));
                        assert(acts@.last()@ == f(c));
                        assert(actions_view(acts@) =~= actions_view(old_acts).push(acts@.last()@));
                        assert(rs.map_values(f) =~= before.map_values(f).push(f(c)));
                        assert(actions_view(acts@) =~= rs.map_values(f));
                    }
                },
                None => {
                    proof {
                        assert forall|d: Seq<char>| #[trigger] rs.contains(d) <==> (exists|k: int| 0 <= k < i + 1 && (#[trigger] clients@[k])@ == d) && self@.sessions.contains_key(d) by {
                            if exists|k: int| 0 <= k < i + 1 && (#[trigger] clients@[k])@ == d {
                                let k = choose|k: int| 0 <= k < i + 1 && (#[trigger] clients@[k])@ == d;
                                if k < i {
                                }
                            }
                        }
                    }
                },
            }
            i = i + 1;
        }
        proof {
            assert(rs.to_set() =~= recipients(self@, publish@.message.topic)) by {
                assert forall|c: Seq<char>| rs.to_set().contains(c) <==> recipients(self@, publish@.message.topic).contains(c) by {
                    if rs.contains(c) {
                        let k = choose|k: int| 0 <= k < i && (#[trigger] clients@[k])@ == c;
                        assert(names(clients@).contains(c));
                    }
                    if recipients(self@, publish@.message.topic).contains(c) {
                        assert(subs.contains(c));
                        let k = choose|k: int| 0 <= k < clients@.len() && (#[trigger] clients@[k])@ == c;
                    }
                }
            }
        }
        acts
    }

    /// Handles one event: the next state and the actions, as the step
    /// functions state them.
    pub fn handle(&mut self, event: ClientEvent, now: u64) -> (r: Vec<Action>)
        requires
            old(self).wf(),
        ensures
            final(self).wf(),
            match event {
                ClientEvent::Connected(cp, addr, conn, auth) => (final(self)@, actions_view(r@))
                    == connect_step(old(self)@, cp@, addr@, conn, auth is Ok, now),
                ClientEvent::ControlPacket(c, ControlPacket::Publish(p), conn) => final(self)@
                    == touch_step(old(self)@, c@, now) && publish_actions(
                    touch_step(old(self)@, c@, now),
                    p@,
                    actions_view(r@),
                ),
                ClientEvent::ControlPacket(c, p, conn) => (final(self)@, actions_view(r@))
                    == packet_step(touch_step(old(self)@, c@, now), c@, p@, conn),
                ClientEvent::Disconnected(c) => final(self)@ == disconnect_step(old(self)@, c@)
                    && r@.len() == 0,
                ClientEvent::ConnectionLost(c) => final(self)@ == disconnect_step(old(self)@, c@)
                    && r@.len() == 0,
            },
    {
        match event {
            ClientEvent::Connected(cp, addr, conn, auth) => self.on_connect(cp, addr, conn, auth, now),
            ClientEvent::ControlPacket(c, packet, conn) => {
                self.record_activity(&c, now);
                match packet {
                ControlPacket::Publish(p) => self.publish(&p),
                ControlPacket::Subscribe(s) => self.subscribe(&c, &s, conn),
                ControlPacket::Unsubscribe(u) => self.unsubscribe(&c, &u, conn),
                ControlPacket::PingReq => self.on_ping_req(&c, conn),
                ControlPacket::Disconnect(_) => {
                    let _ = self.disconnect(&c);
                    Vec::new()
                },
                _ => Vec::new(),
            }
            },
            ClientEvent::Disconnected(c) => {
                let _ = self.disconnect(&c);
                Vec::new()
            },
            ClientEvent::ConnectionLost(c) => {
                let _ = self.connection_lost(&c);
                Vec::new()
            },
        }
    }
}

impl MessagingService {
    /// The client identifiers of the sessions, in storage order.
    pub closed spec fn session_ids(&self) -> Seq<Seq<char>> {
        self.sessions.ids()
    }

    /// The number of nodes of the subscription trie.
    pub closed spec fn trie_nodes(&self) -> int {
        self.subscriptions.node_count()
    }

    /// The clients held at node `j` of the subscription trie.
    pub closed spec fn trie_node_clients(&self, j: int) -> Set<Seq<char>> {
        self.subscriptions.node_names(j)
    }

    /// Whatever events have been handled, no two sessions share a client
    /// identifier: every handler keeps `wf`, and `wf` gives this.
    pub proof fn lemma_session_uniqueness(&self)
        requires
            self.wf(),
        ensures
            self.session_ids().no_duplicates(),
            self.session_ids().to_set() == self@.sessions.dom(),
    {
        self.sessions.lemma_ids_unique();
    }

    /// Once a client with a non-persistent session disconnects, it is in
    /// no node of the subscription trie.
    pub proof fn lemma_disconnect_cleans_trie(&self, before: BrokerModel, c: Seq<char>)
        requires
            self.wf(),
            before.sessions.contains_key(c),
            !before.sessions[c].persistent,
            self@ == disconnect_step(before, c),
        ensures
            !self@.sessions.contains_key(c),
            forall|f: Seq<Seq<u8>>| !#[trigger] self@.subscriptions.contains((c, f)),
            forall|j: int| 0 <= j < self.trie_nodes() ==> !#[trigger] self.trie_node_clients(j).contains(c),
    {
        assert forall|f: Seq<Seq<u8>>| !#[trigger] self@.subscriptions.contains((c, f)) by {
            assert(entries_of_client(c).contains((c, f)));
        }
        self.subscriptions.lemma_absent_everywhere(c);
    }
}

/// Disconnecting a client with a non-persistent session leaves it no
/// session and no subscription.
pub proof fn lemma_disconnect_removes_subscriptions(o: BrokerModel, c: Seq<char>)
    requires
        o.sessions.contains_key(c),
        !o.sessions[c].persistent,
    ensures
        !disconnect_step(o, c).sessions.contains_key(c),
        forall|f: Seq<Seq<u8>>| !#[trigger] disconnect_step(o, c).subscriptions.contains((c, f)),
{
    assert forall|f: Seq<Seq<u8>>| !#[trigger] disconnect_step(o, c).subscriptions.contains((c, f)) by {
        assert(entries_of_client(c).contains((c, f)));
    }
}

/// A publication is delivered once to each recipient, however many of its
/// filters match: there are exactly as many deliveries as recipients, and
/// each recipient's connection gets the packet from exactly one of them.
pub proof fn lemma_single_delivery(o: BrokerModel, p: PublishModel, acts: Seq<ActionModel>)
    requires
        publish_actions(o, p, acts),
    ensures
        acts.len() == recipients(o, p.message.topic).len(),
        exists|rs: Seq<Seq<char>>|
            #![trigger rs.to_set()]
            rs.len() == acts.len() && rs.to_set() == recipients(o, p.message.topic) && (forall|i: int|
                0 <= i < acts.len() ==> #[trigger] acts[i] == send(
                    o.sessions[rs[i]].connection,
                    PacketModel::Publish(p),
                )) && (forall|i: int, j: int|
                0 <= i < rs.len() && 0 <= j < rs.len() && #[trigger] rs[i] == #[trigger] rs[j] ==> i
                    == j),
{
    let rs = choose|rs: Seq<Seq<char>>|
        #![trigger rs.to_set()]
        rs.no_duplicates() && rs.to_set() == recipients(o, p.message.topic) && acts == rs.map_values(
            |c: Seq<char>| send(o.sessions[c].connection, PacketModel::Publish(p)),
        );
    rs.unique_seq_to_set();
    assert(rs.len() == acts.len());
}

} // verus!

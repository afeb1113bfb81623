//! Sessions: one record per client identifier.
use crate::packets::ClientId;
use vstd::prelude::*;

verus! {

/// Identifies a connection; the transport around the library maps it to
/// the connection's egress channel.
pub type ConnectionId = u64;

pub struct SessionModel {
    pub remote_addr: Seq<char>,
    pub persistent: bool,
    pub connection: ConnectionId,
    pub keep_alive_seconds: u16,
    pub last_activity: u64,
}

/// Whether a session's keep-alive has run out at time `now` (seconds): a
/// keep-alive of 0 never does; otherwise one and a half keep-alives after
/// the last activity.
pub open spec fn keep_alive_expired(keep_alive_seconds: u16, last_activity: u64, now: u64) -> bool {
    keep_alive_seconds != 0 && last_activity + (keep_alive_seconds * 3) / 2 <= now
}

#[derive(Debug, Clone)]
pub struct Session {
    pub client_id: ClientId,
    pub remote_addr: String,
    pub persistent: bool,
    pub connection: ConnectionId,
    pub keep_alive_seconds: u16,
    pub last_activity: u64,
}

impl View for Session {
    type V = SessionModel;

    open spec fn view(&self) -> SessionModel {
        SessionModel {
            remote_addr: self.remote_addr@,
            persistent: self.persistent,
            connection: self.connection,
            keep_alive_seconds: self.keep_alive_seconds,
            last_activity: self.last_activity,
        }
    }
}

impl Session {
    pub fn new(
        client_id: ClientId,
        remote_addr: String,
        persistent: bool,
        connection: ConnectionId,
        keep_alive_seconds: u16,
        last_activity: u64,
    ) -> (r: Self)
        ensures
            r.client_id == client_id,
            r.remote_addr == remote_addr,
            r.persistent == persistent,
            r.connection == connection,
            r.keep_alive_seconds == keep_alive_seconds,
            r.last_activity == last_activity,
    {
        Session { client_id, remote_addr, persistent, connection, keep_alive_seconds, last_activity }
    }

    pub fn client_id(&self) -> (r: &ClientId)
        ensures
            r == &self.client_id,
    {
        &self.client_id
    }

    pub fn sender(&self) -> (r: ConnectionId)
        ensures
            r == self.connection,
    {
        self.connection
    }

    pub fn last_activity(&self) -> (r: u64)
        ensures
            r == self.last_activity,
    {
        self.last_activity
    }

    pub fn set_last_activity(&mut self, last_activity: u64)
        ensures
            final(self).last_activity == last_activity,
            final(self).client_id == old(self).client_id,
            final(self).remote_addr == old(self).remote_addr,
            final(self).persistent == old(self).persistent,
            final(self).connection == old(self).connection,
            final(self).keep_alive_seconds == old(self).keep_alive_seconds,
    {
        self.last_activity = last_activity;
    }

    pub fn is_keep_alive_expired(&self, now: u64) -> (r: bool)
        ensures
            r == keep_alive_expired(self.keep_alive_seconds, self.last_activity, now),
    {
        if self.keep_alive_seconds == 0 {
            return false;
        }
        let leeway: u64 = (self.keep_alive_seconds as u64 * 3) / 2;
        if self.last_activity > u64::MAX - leeway {
            return false;
        }
        self.last_activity + leeway <= now
    }

    /// A copy whose fields are equal to this one's.
    pub fn duplicate(&self) -> (r: Session)
        ensures
            r.client_id@ == self.client_id@,
            r@ == self@,
    {
        Session {
            client_id: self.client_id.clone(),
            remote_addr: self.remote_addr.clone(),
            persistent: self.persistent,
            connection: self.connection,
            keep_alive_seconds: self.keep_alive_seconds,
            last_activity: self.last_activity,
        }
    }
}

/// No two sessions share a client identifier.
pub open spec fn unique_ids(s: Seq<Session>) -> bool {
    forall|i: int, j: int|
        0 <= i < s.len() && 0 <= j < s.len() && i != j ==> (#[trigger] s[i]).client_id@ != (
        #[trigger] s[j]).client_id@
}

pub open spec fn has_id(s: Seq<Session>, c: Seq<char>) -> bool {
    exists|i: int| 0 <= i < s.len() && (#[trigger] s[i]).client_id@ == c
}

/// The sessions by client identifier.
pub open spec fn session_map(s: Seq<Session>) -> Map<Seq<char>, SessionModel> {
    Map::new(
        |c: Seq<char>| has_id(s, c),
        |c: Seq<char>| s[choose|i: int| 0 <= i < s.len() && (#[trigger] s[i]).client_id@ == c]@,
    )
}

pub proof fn lemma_session_map_at(s: Seq<Session>, i: int)
    requires
        unique_ids(s),
        0 <= i < s.len(),
    ensures
        session_map(s).contains_key(s[i].client_id@),
        session_map(s)[s[i].client_id@] == s[i]@,
{
    let c = s[i].client_id@;
    assert(has_id(s, c));
    let k = choose|k: int| 0 <= k < s.len() && (#[trigger] s[k]).client_id@ == c;
    assert(k == i);
}

/// The session store: at most one session for each client identifier.
pub struct SessionRepository {
    sessions: Vec<Session>,
}

impl SessionRepository {
    pub closed spec fn view(&self) -> Map<Seq<char>, SessionModel> {
        session_map(self.sessions@)
    }

    pub closed spec fn wf(&self) -> bool {
        unique_ids(self.sessions@)
    }

    /// Each client identifier has at most one session.
    pub proof fn lemma_unique(&self)
        requires
            self.wf(),
        ensures
            forall|i: int, j: int|
                0 <= i < self.len_spec() && 0 <= j < self.len_spec() && i != j ==> #[trigger] self.id_at(i)
                    != #[trigger] self.id_at(j),
            self.len_spec() == self@.dom().len(),
    {
        let s = self.sessions@;
        let ids = s.map_values(|x: Session| x.client_id@);
        assert(ids.to_set() =~= self@.dom()) by {
            assert forall|c: Seq<char>| self@.dom().contains(c) implies ids.to_set().contains(c) by {
                let i = choose|i: int| 0 <= i < s.len() && (#[trigger] s[i]).client_id@ == c;
                assert(ids[i] == c);
            }
            assert forall|c: Seq<char>| ids.to_set().contains(c) implies self@.dom().contains(c) by {
                let i = choose|i: int| 0 <= i < ids.len() && #[trigger] ids[i] == c;
                assert(s[i].client_id@ == c);
            }
        }
        assert(ids.no_duplicates()) by {
            assert forall|i: int, j: int| 0 <= i < ids.len() && 0 <= j < ids.len() && i != j implies ids[i] != ids[j] by {
                assert(s[i].client_id@ != s[j].client_id@);
            }
        }
        ids.unique_seq_to_set();
    }

    /// The client identifiers of the stored sessions, in storage order.
    pub closed spec fn ids(&self) -> Seq<Seq<char>> {
        self.sessions@.map_values(|x: Session| x.client_id@)
    }

    /// No two stored sessions share a client identifier, and there are as
    /// many sessions as identifiers with one.
    pub proof fn lemma_ids_unique(&self)
        requires
            self.wf(),
        ensures
            self.ids().no_duplicates(),
            self.ids().to_set() == self@.dom(),
            self.ids().len() == self@.dom().len(),
    {
        self.lemma_unique();
        let s = self.sessions@;
        let ids = self.ids();
        assert forall|i: int, j: int| 0 <= i < ids.len() && 0 <= j < ids.len() && i != j implies ids[i] != ids[j] by {
            assert(self.id_at(i) != self.id_at(j));
        }
        assert(ids.to_set() =~= self@.dom()) by {
            assert forall|c: Seq<char>| self@.dom().contains(c) implies ids.to_set().contains(c) by {
                let i = choose|i: int| 0 <= i < s.len() && (#[trigger] s[i]).client_id@ == c;
                assert(ids[i] == c);
            }
            assert forall|c: Seq<char>| ids.to_set().contains(c) implies self@.dom().contains(c) by {
                let i = choose|i: int| 0 <= i < ids.len() && #[trigger] ids[i] == c;
                assert(s[i].client_id@ == c);
            }
        }
        ids.unique_seq_to_set();
    }

    pub closed spec fn len_spec(&self) -> int {
        self.sessions@.len() as int
    }

    pub closed spec fn id_at(&self, i: int) -> Seq<char> {
        self.sessions@[i].client_id@
    }

    pub fn new() -> (r: Self)
        ensures
            r.wf(),
            r@ == Map::<Seq<char>, SessionModel>::empty(),
    {
        let r = SessionRepository { sessions: Vec::new() };
        assert(r@ =~= Map::<Seq<char>, SessionModel>::empty());
        r
    }

    fn find(&self, client_id: &ClientId) -> (r: Option<usize>)
        requires
            self.wf(),
        ensures
            match r {
                Some(i) => i < self.sessions@.len() && self.sessions@[i as int].client_id@
                    == client_id@,
                None => !self@.contains_key(client_id@),
            },
    {
        let mut i: usize = 0;
        while i < self.sessions.len()
            invariant
                i <= self.sessions@.len(),
                forall|k: int| 0 <= k < i ==> (#[trigger] self.sessions@[k]).client_id@ != client_id@,
            decreases self.sessions@.len() - i,
        {
            if self.sessions[i].client_id == *client_id {
                return Some(i);
            }
            i = i + 1;
        }
        None
    }

    pub fn contains(&self, client_id: &ClientId) -> (r: bool)
        requires
            self.wf(),
        ensures
            r == self@.contains_key(client_id@),
    {
        match self.find(client_id) {
            Some(i) => {
                proof {
                    lemma_session_map_at(self.sessions@, i as int);
                }
                true
            },
            None => false,
        }
    }

    pub fn get(&self, client_id: &ClientId) -> (r: Option<&Session>)
        requires
            self.wf(),
        ensures
            match r {
                Some(s) => self@.contains_key(client_id@) && self@[client_id@] == s@ && s.client_id@
                    == client_id@,
                None => !self@.contains_key(client_id@),
            },
    {
        match self.find(client_id) {
            Some(i) => {
                proof {
                    lemma_session_map_at(self.sessions@, i as int);
                }
                Some(&self.sessions[i])
            },
            None => None,
        }
    }

    pub fn count(&self) -> (r: usize)
        requires
            self.wf(),
        ensures
            r == self@.dom().len(),
    {
        proof {
            self.lemma_unique();
        }
        self.sessions.len()
    }

    /// Removes the client's session, giving it back.
    pub fn delete(&mut self, client_id: &ClientId) -> (r: Option<Session>)
        requires
            old(self).wf(),
        ensures
            final(self).wf(),
            final(self)@ == old(self)@.remove(client_id@),
            match r {
                Some(s) => old(self)@.contains_key(client_id@) && old(self)@[client_id@] == s@,
                None => !old(self)@.contains_key(client_id@),
            },
    {
        match self.find(client_id) {
            None => {
                assert(self@ =~= old(self)@.remove(client_id@));
                None
            },
            Some(i) => {
                let ghost s = self.sessions@;
                proof {
                    lemma_session_map_at(s, i as int);
                }
                let removed = self.sessions.remove(i);
                proof {
                    let t = self.sessions@;
                    assert(t =~= s.subrange(0, i as int) + s.subrange(i + 1, s.len() as int));
                    assert forall|a: int, b: int|
                        0 <= a < t.len() && 0 <= b < t.len() && a != b implies (#[trigger] t[a]).client_id@ != (
                        #[trigger] t[b]).client_id@ by {
                        let a2 = if a < i { a } else { a + 1 };
                        let b2 = if b < i { b } else { b + 1 };
                        assert(t[a] == s[a2] && t[b] == s[b2]);
                    }
                    assert forall|c: Seq<char>| #[trigger] self@.contains_key(c) <==> old(self)@.remove(client_id@).contains_key(c) by {
                        if has_id(t, c) {
                            let k = choose|k: int| 0 <= k < t.len() && (#[trigger] t[k]).client_id@ == c;
                            let k2 = if k < i { k } else { k + 1 };
                            assert(t[k] == s[k2]);
                            assert(s[k2].client_id@ != s[i as int].client_id@);
                        }
                        if has_id(s, c) && c != client_id@ {
                            let k = choose|k: int| 0 <= k < s.len() && (#[trigger] s[k]).client_id@ == c;
                            assert(k != i);
                            let k2 = if k < i { k } else { k - 1 };
                            assert(t[k2] == s[k]);
                        }
                    }
                    assert forall|c: Seq<char>| #[trigger] self@.contains_key(c) implies self@[c] == old(self)@[c] by {
                        let k = choose|k: int| 0 <= k < t.len() && (#[trigger] t[k]).client_id@ == c;
                        let k2 = if k < i { k } else { k + 1 };
                        assert(t[k] == s[k2]);
                        lemma_session_map_at(t, k);
                        lemma_session_map_at(s, k2);
                    }
                    assert(self@ =~= old(self)@.remove(client_id@));
                }
                Some(removed)
            },
        }
    }

    /// Stores a session, in place of any that the client had.
    pub fn insert(&mut self, session: Session)
        requires
            old(self).wf(),
        ensures
            final(self).wf(),
            final(self)@ == old(self)@.insert(session.client_id@, session@),
    {
        let ghost c = session.client_id@;
        let _ = self.delete(&session.client_id);
        let ghost s = self.sessions@;
        let ghost mid = self@;
        self.sessions.push(session);
        proof {
            let t = self.sessions@;
            assert(!has_id(s, c)) by {
                if has_id(s, c) {
                    let k = choose|k: int| 0 <= k < s.len() && (#[trigger] s[k]).client_id@ == c;
                    lemma_session_map_at(s, k);
                }
            }
            assert forall|a: int, b: int|
                0 <= a < t.len() && 0 <= b < t.len() && a != b implies (#[trigger] t[a]).client_id@ != (
                #[trigger] t[b]).client_id@ by {
                if a < s.len() && b < s.len() {
                    assert(t[a] == s[a] && t[b] == s[b]);
                } else if a < s.len() {
                    assert(t[a] == s[a]);
                } else {
                    assert(t[b] == s[b]);
                }
            }
            lemma_session_map_at(t, s.len() as int);
            assert forall|d: Seq<char>| #[trigger] self@.contains_key(d) <==> mid.insert(c, t.last()@).contains_key(d) by {
                if has_id(t, d) && d != c {
                    let k = choose|k: int| 0 <= k < t.len() && (#[trigger] t[k]).client_id@ == d;
                    assert(k < s.len());
                    assert(t[k] == s[k]);
                }
                if has_id(s, d) {
                    let k = choose|k: int| 0 <= k < s.len() && (#[trigger] s[k]).client_id@ == d;
                    assert(t[k] == s[k]);
                }
            }
            assert forall|d: Seq<char>| #[trigger] self@.contains_key(d) && d != c implies self@[d] == mid[d] by {
                let k = choose|k: int| 0 <= k < t.len() && (#[trigger] t[k]).client_id@ == d;
                assert(k < s.len());
                assert(t[k] == s[k]);
                lemma_session_map_at(t, k);
                lemma_session_map_at(s, k);
            }
            assert(self@ =~= old(self)@.insert(c, t.last()@));
        }
    }

    /// Records activity of the client's session at time `now`.
    pub fn touch(&mut self, client_id: &ClientId, now: u64)
        requires
            old(self).wf(),
        ensures
            final(self).wf(),
            final(self)@ == if old(self)@.contains_key(client_id@) {
                old(self)@.insert(
                    client_id@,
                    SessionModel { last_activity: now, ..old(self)@[client_id@] },
                )
            } else {
                old(self)@
            },
    {
        match self.find(client_id) {
            None => {},
            Some(i) => {
                let ghost s = self.sessions@;
                proof {
                    lemma_session_map_at(s, i as int);
                }
                self.sessions[i].last_activity = now;
                proof {
                    let t = self.sessions@;
                    assert(t.len() == s.len());
                    assert forall|k: int| 0 <= k < t.len() implies (#[trigger] t[k]).client_id == s[k].client_id && (k != i ==> t[k] == s[k]) by {}
                    assert forall|a: int, b: int|
                        0 <= a < t.len() && 0 <= b < t.len() && a != b implies (#[trigger] t[a]).client_id@ != (
                        #[trigger] t[b]).client_id@ by {
                        assert(s[a].client_id@ != s[b].client_id@);
                    }
                    lemma_session_map_at(t, i as int);
                    let expected = old(self)@.insert(
                        client_id@,
                        SessionModel { last_activity: now, ..old(self)@[client_id@] },
                    );
                    assert forall|c: Seq<char>| #[trigger] self@.contains_key(c) <==> expected.contains_key(c) by {
                        if has_id(t, c) {
                            let k = choose|k: int| 0 <= k < t.len() && (#[trigger] t[k]).client_id@ == c;
                            assert(s[k].client_id@ == c);
                        }
                        if has_id(s, c) {
                            let k = choose|k: int| 0 <= k < s.len() && (#[trigger] s[k]).client_id@ == c;
                            assert(t[k].client_id@ == c);
                        }
                    }
                    assert forall|c: Seq<char>| #[trigger] self@.contains_key(c) implies self@[c] == expected[c] by {
                        let k = choose|k: int| 0 <= k < t.len() && (#[trigger] t[k]).client_id@ == c;
                        lemma_session_map_at(t, k);
                        if k != i {
                            assert(t[k] == s[k]);
                            lemma_session_map_at(s, k);
                        }
                    }
                    assert(self@ =~= expected);
                }
            },
        }
    }

    /// The client identifiers of the sessions whose keep-alive has run out
    /// at time `now`.
    pub fn keep_alive_expired(&self, now: u64) -> (r: Vec<ClientId>)
        requires
            self.wf(),
        ensures
            forall|c: Seq<char>|
                #[trigger] crate::trie::names(r@).contains(c) <==> self@.contains_key(c)
                    && keep_alive_expired(
                    self@[c].keep_alive_seconds,
                    self@[c].last_activity,
                    now,
                ),
    {
        let mut out: Vec<ClientId> = Vec::new();
        let mut i: usize = 0;
        while i < self.sessions.len()
            invariant
                self.wf(),
                i <= self.sessions@.len(),
                forall|c: Seq<char>|
                    #[trigger] crate::trie::names(out@).contains(c) <==> exists|k: int|
                        0 <= k < i && (#[trigger] self.sessions@[k]).client_id@ == c
                            && keep_alive_expired(
                            self.sessions@[k].keep_alive_seconds,
                            self.sessions@[k].last_activity,
                            now,
                        ),
            decreases self.sessions@.len() - i,
        {
            let ghost before = out@;
            if self.sessions[i].is_keep_alive_expired(now) {
                let id = self.sessions[i].client_id.clone();
                out.push(id);
                proof {
                    crate::trie::lemma_names_push(before, id);
                }
            }
            proof {
                assert forall|c: Seq<char>|
                    #[trigger] crate::trie::names(out@).contains(c) <==> exists|k: int|
                        0 <= k < i + 1 && (#[trigger] self.sessions@[k]).client_id@ == c
                            && keep_alive_expired(
                            self.sessions@[k].keep_alive_seconds,
                            self.sessions@[k].last_activity,
                            now,
                        ) by {
                    if exists|k: int|
                        0 <= k < i + 1 && (#[trigger] self.sessions@[k]).client_id@ == c
                            && keep_alive_expired(
                            self.sessions@[k].keep_alive_seconds,
                            self.sessions@[k].last_activity,
                            now,
                        ) {
                        let k = choose|k: int|
                            0 <= k < i + 1 && (#[trigger] self.sessions@[k]).client_id@ == c
                                && keep_alive_expired(
                                self.sessions@[k].keep_alive_seconds,
                                self.sessions@[k].last_activity,
                                now,
                            );
                        if k < i {
                            assert(crate::trie::names(before).contains(c));
                        }
                    }
                    if crate::trie::names(out@).contains(c) && !crate::trie::names(before).contains(c) {
                        assert(self.sessions@[i as int].client_id@ == c);
                    }
                }
            }
            i = i + 1;
        }
        proof {
            assert forall|c: Seq<char>|
                #[trigger] crate::trie::names(out@).contains(c) <==> self@.contains_key(c)
                    && keep_alive_expired(self@[c].keep_alive_seconds, self@[c].last_activity, now) by {
                if self@.contains_key(c) {
                    let k = choose|k: int| 0 <= k < self.sessions@.len() && (#[trigger] self.sessions@[k]).client_id@ == c;
                    lemma_session_map_at(self.sessions@, k);
                }
                if crate::trie::names(out@).contains(c) {
                    let k = choose|k: int|
                        0 <= k < i && (#[trigger] self.sessions@[k]).client_id@ == c
                            && keep_alive_expired(
                            self.sessions@[k].keep_alive_seconds,
                            self.sessions@[k].last_activity,
                            now,
                        );
                    lemma_session_map_at(self.sessions@, k);
                }
            }
        }
        out
    }
}

} // verus!

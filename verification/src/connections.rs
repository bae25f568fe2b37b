//! The connections of the server and the session state machine that each of
//! them runs through.
//!
//! The byte streams themselves stay with the caller, which reads and writes
//! them. It hands what it read to [`ConnectionManager::try_read`] and writes
//! what [`ConnectionManager::send_to`] and
//! [`ConnectionManager::broadcast_to_authed`] give it.

use vstd::prelude::*;
use vstd::slice::*;
use crate::bytes::overlay;
use crate::packet::{client_may_send, parse_wire, server_may_send, wire_bytes, Packet, PacketView};
use crate::ws::{
    decode_frame,
    decode_ws_packet,
    encode_ws_packet,
    server_frame,
    FrameView,
    WsMessage,
    MAX_PAYLOAD,
};

verus! {

/// The number by which a connection is known: handed out on registration,
/// never twice.
pub type ConnectionID = u32;

/// Number of failed authentications that a connection is forgiven.
pub const MAX_FAILED_AUTH_ATTEMPTS: i32 = 100;

/// Where a connection stands on its way to a session.
#[derive(PartialEq, Eq, Structural, Copy, Clone, Debug)]
pub enum ConnectionState {
    /// No session; the client has asked for nothing yet.
    NoAuth,
    /// The client offered a token; `waiting` says that the offer has been
    /// passed on.
    AttemptingAuth { token: u32, waiting: bool },
    /// The client asked for a new session; the request has not been passed
    /// on.
    AwaitingNewSession,
    /// The request for a new session has been passed on.
    NewSessionRequested,
    /// The session stands.
    Ready,
    /// The connection is over and leaves at the next flush.
    AwaitingDeletion,
}

/// What the server knows of one connection, apart from its stream.
#[derive(Copy, Clone, Debug)]
pub struct Connection {
    pub state: ConnectionState,
    pub failed_auth_attempts: i32,
    pub session_id: Option<u32>,
    pub id: ConnectionID,
}

impl Connection {
    /// A connection has a session exactly while it is ready, and its count of
    /// failed authentications stays within the limit.
    pub open spec fn wf(self) -> bool {
        &&& self.session_id is Some <==> self.state is Ready
        &&& 0 <= self.failed_auth_attempts <= MAX_FAILED_AUTH_ATTEMPTS
    }

    /// A connection as it is registered.
    pub open spec fn fresh(id: ConnectionID) -> Connection {
        Connection {
            state: ConnectionState::NoAuth,
            failed_auth_attempts: 0,
            session_id: None,
            id,
        }
    }

    /// Whether a session can be granted in this state.
    pub open spec fn accepts_session(self) -> bool {
        self.state is NewSessionRequested || self.state is AttemptingAuth
    }

    /// The connection once it has been given the session `token`.
    pub open spec fn with_session(self, token: u32) -> Connection {
        Connection {
            state: ConnectionState::Ready,
            failed_auth_attempts: 0,
            session_id: Some(token),
            id: self.id,
        }
    }

    /// The connection with the given state and no session.
    pub open spec fn without_session(self, state: ConnectionState) -> Connection {
        Connection { state, session_id: None, ..self }
    }

    /// The connection once it is over.
    pub open spec fn closed(self) -> Connection {
        self.without_session(ConnectionState::AwaitingDeletion)
    }

    /// The connection after a failed authentication: the count goes up, but
    /// not over the limit. A connection that was waiting for the answer goes
    /// back to `NoAuth` if the count had room; every other one is over.
    pub open spec fn after_auth_fail(self) -> Connection {
        let forgiven = self.failed_auth_attempts < MAX_FAILED_AUTH_ATTEMPTS;
        let count = if forgiven {
            (self.failed_auth_attempts + 1) as i32
        } else {
            self.failed_auth_attempts
        };
        let waiting = self.state matches ConnectionState::AttemptingAuth { waiting: true, .. };
        Connection {
            state: if waiting && forgiven {
                ConnectionState::NoAuth
            } else {
                ConnectionState::AwaitingDeletion
            },
            failed_auth_attempts: count,
            session_id: None,
            id: self.id,
        }
    }

    /// The connection after a packet from a client without a session: from
    /// `NoAuth` a request for a new session and an offered token move it on;
    /// everything else leaves it as it is.
    pub open spec fn after_unauthed(self, p: PacketView) -> Connection {
        if self.state is NoAuth {
            match p {
                PacketView::RequestNewSession => Connection {
                    state: ConnectionState::AwaitingNewSession,
                    ..self
                },
                PacketView::AttemptAuthSession(token) => Connection {
                    state: ConnectionState::AttemptingAuth { token, waiting: false },
                    ..self
                },
                _ => self,
            }
        } else {
            self
        }
    }

    /// The connection once its pending request has been passed on.
    pub open spec fn forwarded(self) -> Connection {
        match self.state {
            ConnectionState::AwaitingNewSession => Connection {
                state: ConnectionState::NewSessionRequested,
                ..self
            },
            ConnectionState::AttemptingAuth { token, waiting: false } => Connection {
                state: ConnectionState::AttemptingAuth { token, waiting: true },
                ..self
            },
            _ => self,
        }
    }

    /// What the bytes of one read do to a connection, and the packet that
    /// they hand to the caller. An empty read, an unusable or closing frame,
    /// an empty payload and an undecodable packet end the connection. A
    /// packet that a client may not send is dropped. A packet from a ready
    /// connection goes to the caller; any other drives the state machine.
    pub open spec fn after_read(self, received: Seq<u8>) -> (Connection, Option<PacketView>) {
        if received.len() == 0 {
            (self.closed(), None)
        } else {
            match decode_frame(received) {
                Ok(FrameView::Binary(payload)) => match parse_wire(payload) {
                    Some(p) => if !client_may_send(p) {
                        (self, None)
                    } else if self.state is Ready {
                        (self, Some(p))
                    } else {
                        (self.after_unauthed(p), None)
                    },
                    None => (self.closed(), None),
                },
                _ => (self.closed(), None),
            }
        }
    }

    /// Whether the client asked for a new session and the request has not
    /// been passed on.
    pub fn is_awaiting_new_session(&self) -> (b: bool)
        ensures
            b == (self.state is AwaitingNewSession),
    {
        match self.state {
            ConnectionState::AwaitingNewSession => true,
            _ => false,
        }
    }

    /// Whether the connection is over.
    pub fn is_awaiting_deletion(&self) -> (b: bool)
        ensures
            b == (self.state is AwaitingDeletion),
    {
        match self.state {
            ConnectionState::AwaitingDeletion => true,
            _ => false,
        }
    }

    /// Whether the connection has its session.
    pub fn is_ready(&self) -> (b: bool)
        ensures
            b == (self.state is Ready),
    {
        match self.state {
            ConnectionState::Ready => true,
            _ => false,
        }
    }

    /// Frames `payload` for this connection at the front of `packet_buffer`
    /// and returns the frame's length: the bytes to write to the stream.
    pub fn send_payload(&self, packet_buffer: &mut [u8], payload: &[u8]) -> (len: usize)
        requires
            payload@.len() <= MAX_PAYLOAD,
            server_frame(payload@).len() <= old(packet_buffer)@.len(),
        ensures
            len == server_frame(payload@).len(),
            final(packet_buffer)@ == overlay(old(packet_buffer)@, 0, server_frame(payload@)),
    {
        encode_ws_packet(packet_buffer, payload)
    }

    /// Ends the connection.
    pub fn close(&mut self)
        ensures
            *final(self) == old(self).closed(),
            final(self).wf() == (0 <= old(self).failed_auth_attempts
                <= MAX_FAILED_AUTH_ATTEMPTS),
    {
        self.state = ConnectionState::AwaitingDeletion;
        self.session_id = None;
    }

    /// Takes a packet from a client that has no session yet. A request for a
    /// new session is taken up only from `NoAuth`; in every other state it
    /// changes nothing.
    pub fn process_unauthed_packet(&mut self, p: &Packet)
        ensures
            *final(self) == old(self).after_unauthed(p@),
            old(self).wf() && !(old(self).state is Ready) ==> final(self).wf(),
            p@ is RequestNewSession && old(self).state is NoAuth ==> final(self).state
                is AwaitingNewSession,
            p@ is RequestNewSession && !(old(self).state is NoAuth) ==> *final(self) == *old(
                self,
            ),
    {
        if let ConnectionState::NoAuth = self.state {
            match p {
                Packet::RequestNewSession => {
                    self.state = ConnectionState::AwaitingNewSession;
                },
                Packet::AttemptAuthSession(token) => {
                    self.state = ConnectionState::AttemptingAuth { token: *token, waiting: false };
                },
                _ => {},
            }
        }
    }

    /// Takes the news that the offered token was turned down.
    pub fn auth_failed(&mut self)
        requires
            old(self).wf(),
        ensures
            *final(self) == old(self).after_auth_fail(),
            final(self).wf(),
            old(self).failed_auth_attempts >= MAX_FAILED_AUTH_ATTEMPTS ==> final(self).state
                is AwaitingDeletion,
    {
        let forgiven = self.failed_auth_attempts < MAX_FAILED_AUTH_ATTEMPTS;
        if forgiven {
            self.failed_auth_attempts += 1;
        }
        self.state = match self.state {
            ConnectionState::AttemptingAuth { waiting: true, .. } => if forgiven {
                ConnectionState::NoAuth
            } else {
                ConnectionState::AwaitingDeletion
            },
            _ => ConnectionState::AwaitingDeletion,
        };
        self.session_id = None;
    }

    /// Takes the bytes of one read from the connection's stream.
    pub fn receive(&mut self, received: &[u8]) -> (res: Option<Packet>)
        requires
            old(self).wf(),
        ensures
            *final(self) == old(self).after_read(received@).0,
            final(self).wf(),
            res is Some <==> old(self).after_read(received@).1 is Some,
            res matches Some(p) ==> old(self).after_read(received@).1 == Some(p@),
            res is Some ==> old(self).state is Ready && *final(self) == *old(self),
    {
        if received.len() == 0 {
            self.close();
            return None;
        }
        let payload = match decode_ws_packet(received) {
            Ok(WsMessage::Binary(payload)) => payload,
            _ => {
                self.close();
                return None;
            },
        };
        match Packet::parse(payload.as_slice()) {
            Some(packet) => {
                if !packet.is_valid_from_client() {
                    return None;
                }
                if self.is_ready() {
                    Some(packet)
                } else {
                    self.process_unauthed_packet(&packet);
                    None
                }
            },
            None => {
                self.close();
                None
            },
        }
    }
}

/// A connection after a run of failed authentications, one for each token:
/// each time the client offers the token, the offer is passed on, and the
/// answer is that it failed.
pub open spec fn after_failed_auths(c: Connection, tokens: Seq<u32>) -> Connection
    decreases tokens.len(),
{
    if tokens.len() == 0 {
        c
    } else {
        after_failed_auths(c, tokens.drop_last()).after_unauthed(
            PacketView::AttemptAuthSession(tokens.last()),
        ).forwarded().after_auth_fail()
    }
}

/// A fresh connection is forgiven `MAX_FAILED_AUTH_ATTEMPTS` failed
/// authentications, after each of which it may try again; one more and it is
/// over, and it stays so.
pub proof fn lemma_failed_auths_end_connection(c: Connection, tokens: Seq<u32>)
    requires
        c.wf(),
        c.state is NoAuth,
        c.failed_auth_attempts == 0,
    ensures
        after_failed_auths(c, tokens).wf(),
        tokens.len() <= MAX_FAILED_AUTH_ATTEMPTS ==> after_failed_auths(c, tokens).state is NoAuth
            && after_failed_auths(c, tokens).failed_auth_attempts == tokens.len(),
        tokens.len() > MAX_FAILED_AUTH_ATTEMPTS ==> after_failed_auths(c, tokens).state
            is AwaitingDeletion,
    decreases tokens.len(),
{
    if tokens.len() > 0 {
        lemma_failed_auths_end_connection(c, tokens.drop_last());
    }
}

/// Every step of the state machine keeps a connection well-formed: it has a
/// session exactly while it is ready.
pub proof fn lemma_steps_keep_wf(c: Connection, p: PacketView, token: u32, received: Seq<u8>)
    requires
        c.wf(),
    ensures
        Connection::fresh(c.id).wf(),
        c.with_session(token).wf(),
        c.without_session(ConnectionState::NoAuth).wf(),
        c.closed().wf(),
        c.after_auth_fail().wf(),
        c.forwarded().wf(),
        !(c.state is Ready) ==> c.after_unauthed(p).wf(),
        c.after_read(received).0.wf(),
{
}

/// A connection that is over stays over, and a ready connection stays ready
/// until it is over: no packet, no passing on and no answer from the
/// simulation moves either of them anywhere else.
pub proof fn lemma_final_states(c: Connection, p: PacketView, received: Seq<u8>)
    ensures
        c.state is AwaitingDeletion ==> !c.accepts_session(),
        c.state is AwaitingDeletion ==> c.after_unauthed(p) == c && c.forwarded() == c,
        c.state is AwaitingDeletion ==> c.after_auth_fail().state is AwaitingDeletion,
        c.state is AwaitingDeletion ==> c.after_read(received).0.state is AwaitingDeletion
            && c.after_read(received).1 is None,
        c.state is Ready ==> !c.accepts_session(),
        c.state is Ready ==> c.after_unauthed(p) == c && c.forwarded() == c,
        c.state is Ready ==> c.after_auth_fail().state is AwaitingDeletion,
        c.state is Ready ==> c.after_read(received).0 == c || c.after_read(received).0
            == c.closed(),
{
}

/// What a search among the connections looks for.
#[derive(PartialEq, Eq, Structural, Copy, Clone, Debug)]
pub enum Wanted {
    /// The connection with this id.
    Id(ConnectionID),
    /// A connection whose request for a new session has not been passed on.
    NewSessionRequest,
    /// A connection whose offered token has not been passed on.
    AuthAttempt,
}

/// Whether a connection is what a search looks for.
pub open spec fn is_wanted(c: Connection, w: Wanted) -> bool {
    match w {
        Wanted::Id(id) => c.id == id,
        Wanted::NewSessionRequest => c.state is AwaitingNewSession,
        Wanted::AuthAttempt => c.state matches ConnectionState::AttemptingAuth {
            waiting: false,
            ..
        },
    }
}

/// Index of the first connection at or after `from` that is wanted; the
/// number of connections if there is none.
pub open spec fn first_wanted(conns: Seq<Connection>, w: Wanted, from: nat) -> nat
    decreases conns.len() - from,
{
    if from >= conns.len() {
        conns.len()
    } else if is_wanted(conns[from as int], w) {
        from
    } else {
        first_wanted(conns, w, from + 1)
    }
}

/// Whether some connection has the id.
pub open spec fn has_id(conns: Seq<Connection>, id: ConnectionID) -> bool {
    first_wanted(conns, Wanted::Id(id), 0) < conns.len()
}

/// Index of the connection with the id; the number of connections if none
/// has it.
pub open spec fn index_of(conns: Seq<Connection>, id: ConnectionID) -> int {
    first_wanted(conns, Wanted::Id(id), 0) as int
}

/// Whether the connection with the id can be given a session.
pub open spec fn grant_applies(conns: Seq<Connection>, id: ConnectionID) -> bool {
    has_id(conns, id) && conns[index_of(conns, id)].accepts_session()
}

/// The connections once the one with the id has been given a session, if it
/// can be.
pub open spec fn after_grant(conns: Seq<Connection>, id: ConnectionID, token: u32) -> Seq<
    Connection,
> {
    if grant_applies(conns, id) {
        conns.update(index_of(conns, id), conns[index_of(conns, id)].with_session(token))
    } else {
        conns
    }
}

/// Whether the connection with the id waits for the answer to its request
/// for a new session.
pub open spec fn new_session_applies(conns: Seq<Connection>, id: ConnectionID) -> bool {
    has_id(conns, id) && conns[index_of(conns, id)].state is NewSessionRequested
}

/// The connections once the one with the id has its answer to a request for
/// a new session, if it waits for one.
pub open spec fn after_new_session(conns: Seq<Connection>, id: ConnectionID) -> Seq<Connection> {
    if new_session_applies(conns, id) {
        conns.update(
            index_of(conns, id),
            conns[index_of(conns, id)].without_session(ConnectionState::NoAuth),
        )
    } else {
        conns
    }
}

/// The connections once the token of the one with the id was turned down.
pub open spec fn after_auth_failure(conns: Seq<Connection>, id: ConnectionID) -> Seq<Connection> {
    if has_id(conns, id) {
        conns.update(index_of(conns, id), conns[index_of(conns, id)].after_auth_fail())
    } else {
        conns
    }
}

/// The connections once the one with the id is over.
pub open spec fn after_close(conns: Seq<Connection>, id: ConnectionID) -> Seq<Connection> {
    if has_id(conns, id) {
        conns.update(index_of(conns, id), conns[index_of(conns, id)].closed())
    } else {
        conns
    }
}

/// The connections that are not over, in their order.
pub open spec fn live_connections(conns: Seq<Connection>) -> Seq<Connection>
    decreases conns.len(),
{
    if conns.len() == 0 {
        Seq::empty()
    } else if conns.last().state is AwaitingDeletion {
        live_connections(conns.drop_last())
    } else {
        live_connections(conns.drop_last()).push(conns.last())
    }
}

/// The ids of the ready connections, in their order.
pub open spec fn ready_ids(conns: Seq<Connection>) -> Seq<ConnectionID>
    decreases conns.len(),
{
    if conns.len() == 0 {
        Seq::empty()
    } else if conns.last().state is Ready {
        ready_ids(conns.drop_last()).push(conns.last().id)
    } else {
        ready_ids(conns.drop_last())
    }
}

/// Ids grow along the list and stay below `bound`.
pub open spec fn ids_ascend(conns: Seq<Connection>, bound: ConnectionID) -> bool {
    &&& forall|i: int, j: int| 0 <= i < j < conns.len() ==> conns[i].id < conns[j].id
    &&& forall|i: int| 0 <= i < conns.len() ==> conns[i].id < bound
}

/// Every connection is well-formed.
pub open spec fn all_wf(conns: Seq<Connection>) -> bool {
    forall|i: int| 0 <= i < conns.len() ==> (#[trigger] conns[i]).wf()
}

/// `first_wanted` answers within `from ..= len`, with a wanted connection
/// unless it answers `len`, and passes over no wanted connection.
pub proof fn lemma_first_wanted(conns: Seq<Connection>, w: Wanted, from: nat)
    requires
        from <= conns.len(),
    ensures
        from <= first_wanted(conns, w, from) <= conns.len(),
        first_wanted(conns, w, from) < conns.len() ==> is_wanted(
            conns[first_wanted(conns, w, from) as int],
            w,
        ),
        forall|i: int| from <= i < first_wanted(conns, w, from) ==> !is_wanted(conns[i], w),
    decreases conns.len() - from,
{
    if from >= conns.len() {
    } else if is_wanted(conns[from as int], w) {
    } else {
        lemma_first_wanted(conns, w, from + 1);
    }
}

/// What is left after a flush is a sub-list of what was there: it holds no
/// connection that is over, every connection that is not, and it keeps
/// well-formedness and the order of the ids.
pub proof fn lemma_live_connections(conns: Seq<Connection>, bound: ConnectionID)
    ensures
        live_connections(conns).len() <= conns.len(),
        forall|k: int|
            0 <= k < live_connections(conns).len() ==> !((#[trigger] live_connections(
                conns,
            )[k]).state is AwaitingDeletion) && conns.contains(live_connections(conns)[k]),
        forall|i: int|
            0 <= i < conns.len() && !(conns[i].state is AwaitingDeletion) ==> live_connections(
                conns,
            ).contains(#[trigger] conns[i]),
        all_wf(conns) ==> all_wf(live_connections(conns)),
        ids_ascend(conns, bound) ==> ids_ascend(live_connections(conns), bound),
    decreases conns.len(),
{
    if conns.len() > 0 {
        let front = conns.drop_last();
        let kept = live_connections(front);
        lemma_live_connections(front, bound);
        let out = live_connections(conns);
        assert forall|k: int| 0 <= k < out.len() implies !((#[trigger] out[k]).state
            is AwaitingDeletion) && conns.contains(out[k]) by {
            if k < kept.len() {
                assert(front.contains(kept[k]));
                let i = choose|i: int| 0 <= i < front.len() && front[i] == kept[k];
                assert(conns[i] == kept[k]);
            } else {
                assert(conns[conns.len() - 1] == out[k]);
            }
        }
        assert forall|i: int|
            0 <= i < conns.len() && !(conns[i].state is AwaitingDeletion) implies out.contains(
            #[trigger] conns[i],
        ) by {
            if i < front.len() {
                assert(front[i] == conns[i]);
                assert(kept.contains(front[i]));
                let k = choose|k: int| 0 <= k < kept.len() && kept[k] == front[i];
                assert(out[k] == conns[i]);
            } else {
                assert(out[out.len() - 1] == conns[i]);
            }
        }
        if ids_ascend(conns, bound) {
            assert(ids_ascend(front, bound));
            assert forall|i: int, j: int| 0 <= i < j < out.len() implies out[i].id
                < out[j].id by {
                if j == kept.len() {
                    assert(front.contains(kept[i]));
                    let a = choose|a: int| 0 <= a < front.len() && front[a] == kept[i];
                    assert(conns[a].id < conns[conns.len() - 1].id);
                }
            }
        }
        if all_wf(conns) {
            assert(all_wf(front));
        }
    }
}

/// The connections of the server, in the order in which they were
/// registered.
pub struct ConnectionManager {
    pub connections: Vec<Connection>,
    pub next_id: ConnectionID,
}

impl ConnectionManager {
    /// Every connection is well-formed, ids grow along the list, and none
    /// reaches the id that is handed out next.
    pub open spec fn wf(&self) -> bool {
        &&& all_wf(self.connections@)
        &&& ids_ascend(self.connections@, self.next_id)
        &&& self.next_id >= 1
    }

    /// A manager without connections; the first id is 1.
    pub fn new() -> (m: ConnectionManager)
        ensures
            m.connections@.len() == 0,
            m.next_id == 1,
            m.wf(),
    {
        ConnectionManager { connections: Vec::new(), next_id: 1 }
    }

    /// Whether the manager is well-formed. What the functions of this module
    /// make stays so; this is for a caller that has written to the fields.
    pub fn is_well_formed(&self) -> (ok: bool)
        ensures
            ok == self.wf(),
    {
        if self.next_id < 1 {
            return false;
        }
        let mut i: usize = 0;
        while i < self.connections.len()
            invariant
                i <= self.connections@.len(),
                all_wf(self.connections@.take(i as int)),
                ids_ascend(self.connections@.take(i as int), self.next_id),
            decreases self.connections@.len() - i,
        {
            let c = self.connections[i];
            let session_ok = match c.state {
                ConnectionState::Ready => c.session_id.is_some(),
                _ => c.session_id.is_none(),
            };
            let count_ok = 0 <= c.failed_auth_attempts && c.failed_auth_attempts
                <= MAX_FAILED_AUTH_ATTEMPTS;
            let order_ok = c.id < self.next_id && (i == 0 || self.connections[i - 1].id < c.id);
            if !(session_ok && count_ok && order_ok) {
                proof {
                    if !(session_ok && count_ok) {
                        assert(!self.connections@[i as int].wf());
                    }
                }
                return false;
            }
            proof {
                let part = self.connections@.take(i as int);
                let next = self.connections@.take(i + 1);
                assert forall|k: int| 0 <= k < next.len() implies (#[trigger] next[k]).wf() by {
                    if k < i {
                        assert(part[k].wf());
                    }
                }
                assert forall|a: int, b: int| 0 <= a < b < next.len() implies next[a].id
                    < next[b].id by {
                    if b < i {
                        assert(part[a].id < part[b].id);
                    } else if a < i - 1 {
                        assert(part[a].id < part[i - 1].id);
                    }
                }
                assert forall|k: int| 0 <= k < next.len() implies next[k].id < self.next_id by {
                    if k < i {
                        assert(part[k].id < self.next_id);
                    }
                }
            }
            i += 1;
        }
        assert(self.connections@.take(i as int) =~= self.connections@);
        true
    }

    /// Takes in a connection whose stream has just been upgraded and gives
    /// it the next id. Nothing happens once the ids have run out.
    pub fn register_connection(&mut self) -> (id: Option<ConnectionID>)
        requires
            old(self).wf(),
        ensures
            final(self).wf(),
            id is Some <==> old(self).next_id < u32::MAX,
            id matches Some(n) ==> n == old(self).next_id && final(self).next_id == n + 1
                && final(self).connections@ == old(self).connections@.push(
                Connection::fresh(n),
            ),
            id is None ==> *final(self) == *old(self),
    {
        if self.next_id == u32::MAX {
            return None;
        }
        let id = self.next_id;
        self.connections.push(
            Connection {
                state: ConnectionState::NoAuth,
                failed_auth_attempts: 0,
                session_id: None,
                id,
            },
        );
        self.next_id += 1;
        Some(id)
    }

    /// Index of the first connection that is wanted; the number of
    /// connections if there is none.
    pub fn find(&self, w: Wanted) -> (at: usize)
        ensures
            at == first_wanted(self.connections@, w, 0),
            at <= self.connections@.len(),
            at < self.connections@.len() ==> is_wanted(self.connections@[at as int], w),
    {
        proof {
            lemma_first_wanted(self.connections@, w, 0);
        }
        let mut i: usize = 0;
        while i < self.connections.len()
            invariant
                i <= self.connections@.len(),
                first_wanted(self.connections@, w, 0) == first_wanted(
                    self.connections@,
                    w,
                    i as nat,
                ),
            decreases self.connections@.len() - i,
        {
            let c = self.connections[i];
            let hit = match w {
                Wanted::Id(id) => c.id == id,
                Wanted::NewSessionRequest => c.is_awaiting_new_session(),
                Wanted::AuthAttempt => match c.state {
                    ConnectionState::AttemptingAuth { waiting: false, .. } => true,
                    _ => false,
                },
            };
            if hit {
                return i;
            }
            i += 1;
        }
        i
    }

    /// Gives the connection `id` its session, if it is waiting for one: after
    /// a request for a new session was passed on, or after it offered a token.
    /// Says whether it did.
    pub fn imbue_session(&mut self, id: ConnectionID, token: u32) -> (applied: bool)
        requires
            old(self).wf(),
        ensures
            final(self).wf(),
            final(self).next_id == old(self).next_id,
            applied == grant_applies(old(self).connections@, id),
            final(self).connections@ == after_grant(old(self).connections@, id, token),
    {
        let at = self.find(Wanted::Id(id));
        if at == self.connections.len() {
            return false;
        }
        let con = self.connections[at];
        match con.state {
            ConnectionState::NewSessionRequested | ConnectionState::AttemptingAuth { .. } => {
                self.connections[at] = Connection {
                    state: ConnectionState::Ready,
                    failed_auth_attempts: 0,
                    session_id: Some(token),
                    id: con.id,
                };
                true
            },
            _ => false,
        }
    }

    /// Takes the news that the connection `id` got a new session token: the
    /// connection, if its request was passed on, is back at `NoAuth` and may
    /// now offer the token. Says whether it was.
    pub fn notify_new_session(&mut self, id: ConnectionID) -> (applied: bool)
        requires
            old(self).wf(),
        ensures
            final(self).wf(),
            final(self).next_id == old(self).next_id,
            applied == new_session_applies(old(self).connections@, id),
            final(self).connections@ == after_new_session(old(self).connections@, id),
    {
        let at = self.find(Wanted::Id(id));
        if at == self.connections.len() {
            return false;
        }
        let mut con = self.connections[at];
        match con.state {
            ConnectionState::NewSessionRequested => {
                con.state = ConnectionState::NoAuth;
                con.session_id = None;
                self.connections[at] = con;
                true
            },
            _ => false,
        }
    }

    /// Takes the news that the token of the connection `id` was turned down.
    pub fn notify_auth_fail(&mut self, id: ConnectionID)
        requires
            old(self).wf(),
        ensures
            final(self).wf(),
            final(self).next_id == old(self).next_id,
            final(self).connections@ == after_auth_failure(old(self).connections@, id),
    {
        let at = self.find(Wanted::Id(id));
        if at == self.connections.len() {
            return ;
        }
        let mut con = self.connections[at];
        con.auth_failed();
        self.connections[at] = con;
    }

    /// Takes the news that writing to the connection `id` failed: the
    /// connection is over.
    pub fn notify_write_error(&mut self, id: ConnectionID)
        requires
            old(self).wf(),
        ensures
            final(self).wf(),
            final(self).next_id == old(self).next_id,
            final(self).connections@ == after_close(old(self).connections@, id),
    {
        let at = self.find(Wanted::Id(id));
        if at == self.connections.len() {
            return ;
        }
        let mut con = self.connections[at];
        con.close();
        self.connections[at] = con;
    }

    /// Drops the connections that are over.
    pub fn flush(&mut self)
        requires
            old(self).wf(),
        ensures
            final(self).wf(),
            final(self).next_id == old(self).next_id,
            final(self).connections@ == live_connections(old(self).connections@),
    {
        let ghost before = self.connections@;
        let mut kept: Vec<Connection> = Vec::new();
        let mut i: usize = 0;
        assert(before.take(0) =~= Seq::<Connection>::empty());
        while i < self.connections.len()
            invariant
                i <= before.len(),
                self.connections@ == before,
                kept@ == live_connections(before.take(i as int)),
            decreases before.len() - i,
        {
            let con = self.connections[i];
            let ghost part = before.take(i + 1);
            assert(part.last() == before[i as int]);
            assert(part.drop_last() =~= before.take(i as int));
            if !con.is_awaiting_deletion() {
                kept.push(con);
            }
            i += 1;
        }
        assert(before.take(i as int) =~= before);
        proof {
            lemma_live_connections(before, self.next_id);
        }
        self.connections = kept;
    }

    /// Picks the first connection whose request for a new session has not
    /// been passed on, notes that it now has been, and returns its id.
    pub fn poll_new_sessions(&mut self) -> (res: Option<ConnectionID>)
        requires
            old(self).wf(),
        ensures
            final(self).wf(),
            final(self).next_id == old(self).next_id,
            ({
                let at = first_wanted(old(self).connections@, Wanted::NewSessionRequest, 0) as int;
                let conns = old(self).connections@;
                if at < conns.len() {
                    res == Some(conns[at].id) && final(self).connections@ == conns.update(
                        at,
                        conns[at].forwarded(),
                    ) && final(self).connections@[at].state is NewSessionRequested
                } else {
                    res is None && final(self).connections@ == conns
                }
            }),
    {
        let at = self.find(Wanted::NewSessionRequest);
        if at == self.connections.len() {
            return None;
        }
        let mut con = self.connections[at];
        con.state = ConnectionState::NewSessionRequested;
        self.connections[at] = con;
        Some(con.id)
    }

    /// Picks the first connection whose offered token has not been passed on,
    /// notes that it now has been, and returns its id and the token.
    pub fn poll_auth_attempts(&mut self) -> (res: Option<(ConnectionID, u32)>)
        requires
            old(self).wf(),
        ensures
            final(self).wf(),
            final(self).next_id == old(self).next_id,
            ({
                let at = first_wanted(old(self).connections@, Wanted::AuthAttempt, 0) as int;
                let conns = old(self).connections@;
                if at < conns.len() {
                    res == Some((conns[at].id, conns[at].state->token))
                        && final(self).connections@ == conns.update(at, conns[at].forwarded())
                        && final(self).connections@[at].state == (ConnectionState::AttemptingAuth {
                        token: conns[at].state->token,
                        waiting: true,
                    })
                } else {
                    res is None && final(self).connections@ == conns
                }
            }),
    {
        let at = self.find(Wanted::AuthAttempt);
        if at == self.connections.len() {
            return None;
        }
        let mut con = self.connections[at];
        match con.state {
            ConnectionState::AttemptingAuth { token, .. } => {
                con.state = ConnectionState::AttemptingAuth { token, waiting: true };
                self.connections[at] = con;
                Some((con.id, token))
            },
            _ => None,
        }
    }

    /// The frame to write to the connection `id` so that it gets the packet.
    /// There is none if no connection has the id, if the server may not send
    /// the packet, or if the packet is too long for one frame.
    pub fn send_to(&self, id: ConnectionID, p: &Packet) -> (frame: Option<Vec<u8>>)
        ensures
            frame is Some <==> has_id(self.connections@, id) && server_may_send(p@)
                && wire_bytes(p@).len() <= MAX_PAYLOAD,
            frame matches Some(f) ==> f@ == server_frame(wire_bytes(p@)),
    {
        let at = self.find(Wanted::Id(id));
        if at == self.connections.len() {
            return None;
        }
        frame_packet(p)
    }

    /// The frame that brings the packet to a client, and the ids of the ready
    /// connections, to each of which it is to be written, in their order.
    /// There is no frame if the server may not send the packet or if the
    /// packet is too long for one frame.
    pub fn broadcast_to_authed(&self, p: &Packet) -> (res: Option<(Vec<u8>, Vec<ConnectionID>)>)
        ensures
            res is Some <==> server_may_send(p@) && wire_bytes(p@).len() <= MAX_PAYLOAD,
            res matches Some((frame, targets)) ==> frame@ == server_frame(wire_bytes(p@))
                && targets@ == ready_ids(self.connections@),
    {
        let frame = match frame_packet(p) {
            Some(f) => f,
            None => {
                return None;
            },
        };
        let mut targets: Vec<ConnectionID> = Vec::new();
        let mut i: usize = 0;
        assert(self.connections@.take(0) =~= Seq::<Connection>::empty());
        while i < self.connections.len()
            invariant
                i <= self.connections@.len(),
                targets@ == ready_ids(self.connections@.take(i as int)),
            decreases self.connections@.len() - i,
        {
            let ghost part = self.connections@.take(i + 1);
            assert(part.last() == self.connections@[i as int]);
            assert(part.drop_last() =~= self.connections@.take(i as int));
            if self.connections[i].is_ready() {
                targets.push(self.connections[i].id);
            }
            i += 1;
        }
        assert(self.connections@.take(i as int) =~= self.connections@);
        Some((frame, targets))
    }

    /// Takes the bytes of one read from the stream of the connection at
    /// `index`. Returns the connection's id and the packet, if the bytes
    /// bring a packet from a ready connection; everything else is dealt with
    /// here.
    pub fn try_read(&mut self, index: usize, received: &[u8]) -> (res: Option<
        (ConnectionID, Packet),
    >)
        requires
            old(self).wf(),
            index < old(self).connections@.len(),
        ensures
            final(self).wf(),
            final(self).next_id == old(self).next_id,
            final(self).connections@ == old(self).connections@.update(
                index as int,
                old(self).connections@[index as int].after_read(received@).0,
            ),
            res is Some <==> old(self).connections@[index as int].after_read(received@).1
                is Some,
            res matches Some((id, p)) ==> id == old(self).connections@[index as int].id && Some(
                p@,
            ) == old(self).connections@[index as int].after_read(received@).1,
    {
        let mut con = self.connections[index];
        let res = con.receive(received);
        self.connections[index] = con;
        match res {
            Some(packet) => Some((con.id, packet)),
            None => None,
        }
    }
}

/// The frame that brings a packet to a client. There is none if the server
/// may not send the packet or if the packet is too long for one frame.
pub fn frame_packet(p: &Packet) -> (frame: Option<Vec<u8>>)
    ensures
        frame is Some <==> server_may_send(p@) && wire_bytes(p@).len() <= MAX_PAYLOAD,
        frame matches Some(f) ==> f@ == server_frame(wire_bytes(p@)),
{
    if !p.is_valid_from_server() {
        return None;
    }
    let len = match p.wire_len_within(MAX_PAYLOAD) {
        Some(n) => n,
        None => {
            return None;
        },
    };
    let room: usize = if len > 64 {
        len
    } else {
        65
    };
    let mut payload: Vec<u8> = vec![0u8; room];
    let written = p.write(payload.as_mut_slice());
    let mut frame: Vec<u8> = vec![0u8; len + 4];
    let body = slice_subrange(payload.as_slice(), 0, written);
    assert(body@ =~= wire_bytes(p@));
    let size = encode_ws_packet(frame.as_mut_slice(), body);
    frame.truncate(size);
    assert(frame@ =~= server_frame(wire_bytes(p@)));
    Some(frame)
}

} // verus!

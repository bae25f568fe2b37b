//! What the two workers of the server decide: which packets a message from the
//! simulation puts on the wire, which messages a packet from a client and a
//! waiting connection send to the simulation, and how the simulation answers.
//!
//! The workers' loops, their channels and their clocks stay with the caller.

use vstd::prelude::*;
use vstd::slice::*;
use crate::connections::{
    after_auth_failure,
    after_grant,
    after_new_session,
    first_wanted,
    grant_applies,
    has_id,
    is_wanted,
    lemma_first_wanted,
    new_session_applies,
    ready_ids,
    Connection,
    ConnectionID,
    ConnectionManager,
    ConnectionState,
    Wanted,
};
use crate::packet::{server_may_send, wire_bytes, Packet, PacketView};
use crate::http::{parse_request, Request, RequestError, Response};
use crate::world::{
    placements_of,
    stages_of,
    Position,
    Registry,
    Species,
    World,
    WorldEvent,
    WORLD_H,
    WORLD_W,
};
use crate::ws::{
    bad_request_reply,
    handshake_check,
    handshake_reply,
    init_websocket_connection,
    server_frame,
    HandshakeError,
    MAX_PAYLOAD,
};

verus! {

/// Number of session tokens: `3^9`.
pub const SESSION_KEY_SPACE: u32 = 19683;

/// Id, place and species of a tree.
pub type Placement = (u32, Position, Species);

/// A packet on its way out, for one connection or, with no target, for every
/// ready one.
pub type Outbound = (Option<ConnectionID>, Packet);

/// What the simulation tells the network worker.
#[derive(Debug)]
pub enum NetworkMessage {
    NewSession(ConnectionID, u32),
    AuthSuccess(ConnectionID, u32),
    AuthFail(ConnectionID),
    /// For one connection: the trees that stand, and the health grid.
    WorldStateReady(ConnectionID, Vec<Placement>, Vec<u8>),
    PlaceTree(u32, Position, Species),
    KillTree(u32),
    /// The health grid after a tick.
    WorldTick(Vec<u8>),
    /// Id and stage of each tree after a tick.
    TreeTick(Vec<(u32, u8)>),
}

/// What a message to the network worker says, apart from how it is stored.
pub enum NetworkMessageView {
    NewSession(ConnectionID, u32),
    AuthSuccess(ConnectionID, u32),
    AuthFail(ConnectionID),
    WorldStateReady(ConnectionID, Seq<Placement>, Seq<u8>),
    PlaceTree(u32, Position, Species),
    KillTree(u32),
    WorldTick(Seq<u8>),
    TreeTick(Seq<(u32, u8)>),
}

impl View for NetworkMessage {
    type V = NetworkMessageView;

    open spec fn view(&self) -> NetworkMessageView {
        match *self {
            NetworkMessage::NewSession(id, token) => NetworkMessageView::NewSession(id, token),
            NetworkMessage::AuthSuccess(id, token) => NetworkMessageView::AuthSuccess(id, token),
            NetworkMessage::AuthFail(id) => NetworkMessageView::AuthFail(id),
            NetworkMessage::WorldStateReady(id, trees, health) => {
                NetworkMessageView::WorldStateReady(id, trees@, health@)
            },
            NetworkMessage::PlaceTree(id, pos, s) => NetworkMessageView::PlaceTree(id, pos, s),
            NetworkMessage::KillTree(id) => NetworkMessageView::KillTree(id),
            NetworkMessage::WorldTick(health) => NetworkMessageView::WorldTick(health@),
            NetworkMessage::TreeTick(stages) => NetworkMessageView::TreeTick(stages@),
        }
    }
}

/// What the network worker tells the simulation.
#[derive(PartialEq, Eq, Structural, Copy, Clone, Debug)]
pub enum SimulationMessage {
    RequestNewSession(ConnectionID),
    AttemptAuthSession(ConnectionID, u32),
    RequestWorldState(ConnectionID),
    RequestPlaceTree(ConnectionID, Position, Species),
}

/// The packets of a queue with their targets.
pub open spec fn queue_view(queue: Seq<Outbound>) -> Seq<(Option<ConnectionID>, PacketView)> {
    Seq::new(queue.len(), |i: int| (queue[i].0, queue[i].1@))
}

/// The messages of a list.
pub open spec fn messages_view(messages: Seq<NetworkMessage>) -> Seq<NetworkMessageView> {
    Seq::new(messages.len(), |i: int| messages[i]@)
}

/// The packet that tells a client of a tree.
pub open spec fn tree_placed(tree: Placement) -> PacketView {
    PacketView::TreePlaced(tree.0, tree.1.x, tree.1.y, tree.2)
}

/// The connections after a message from the simulation: a new session and a
/// failed authentication move the connection they name; a successful one
/// gives it its session.
pub open spec fn connections_after(conns: Seq<Connection>, msg: NetworkMessageView) -> Seq<
    Connection,
> {
    match msg {
        NetworkMessageView::NewSession(id, _) => after_new_session(conns, id),
        NetworkMessageView::AuthSuccess(id, token) => after_grant(conns, id, token),
        NetworkMessageView::AuthFail(id) => after_auth_failure(conns, id),
        _ => conns,
    }
}

/// The packets that a message from the simulation puts on the queue, in
/// their order. A session grant and a new session reach the client only if
/// its connection was waiting for them. The world's state goes to one
/// connection: the health grid, then each tree. Everything else goes to
/// every ready connection.
pub open spec fn packets_for(conns: Seq<Connection>, msg: NetworkMessageView) -> Seq<
    (Option<ConnectionID>, PacketView),
> {
    match msg {
        NetworkMessageView::NewSession(id, token) => if new_session_applies(conns, id) {
            seq![(Some(id), PacketView::NewSession(token))]
        } else {
            seq![]
        },
        NetworkMessageView::AuthSuccess(id, token) => if grant_applies(conns, id) {
            seq![(Some(id), PacketView::AuthSuccessful(token))]
        } else {
            seq![]
        },
        NetworkMessageView::AuthFail(id) => seq![(Some(id), PacketView::AuthFail)],
        NetworkMessageView::WorldStateReady(id, trees, health) => seq![
            (Some(id), PacketView::HealthUpdate(health)),
        ] + Seq::new(trees.len(), |i: int| (Some(id), tree_placed(trees[i]))),
        NetworkMessageView::PlaceTree(id, pos, s) => seq![(None, tree_placed((id, pos, s)))],
        NetworkMessageView::KillTree(id) => seq![(None, PacketView::TreeDied(id))],
        NetworkMessageView::WorldTick(health) => seq![(None, PacketView::HealthUpdate(health))],
        NetworkMessageView::TreeTick(stages) => seq![(None, PacketView::TreeUpdate(stages))],
    }
}

/// Takes a message from the simulation: moves the connection that it names
/// and puts the packets that it asks for at the end of the queue.
pub fn handle_network_message(
    connections: &mut ConnectionManager,
    msg: NetworkMessage,
    queue: &mut Vec<Outbound>,
)
    requires
        old(connections).wf(),
    ensures
        final(connections).wf(),
        final(connections).next_id == old(connections).next_id,
        final(connections).connections@ == connections_after(old(connections).connections@, msg@),
        queue_view(final(queue)@) == queue_view(old(queue)@) + packets_for(
            old(connections).connections@,
            msg@,
        ),
{
    let ghost before = queue_view(queue@);
    match msg {
        NetworkMessage::NewSession(id, token) => {
            if connections.notify_new_session(id) {
                queue.push((Some(id), Packet::NewSession(token)));
            }
        },
        NetworkMessage::AuthSuccess(id, token) => {
            if connections.imbue_session(id, token) {
                queue.push((Some(id), Packet::AuthSuccessful(token)));
            }
        },
        NetworkMessage::AuthFail(id) => {
            connections.notify_auth_fail(id);
            queue.push((Some(id), Packet::AuthFail));
        },
        NetworkMessage::WorldStateReady(id, state, health_state) => {
            let ghost health = health_state@;
            queue.push((Some(id), Packet::HealthUpdate(health_state)));
            let ghost head = before + seq![(Some(id), PacketView::HealthUpdate(health))];
            assert(queue_view(queue@) =~= head);
            let mut i: usize = 0;
            while i < state.len()
                invariant
                    i <= state@.len(),
                    queue_view(queue@) == head + Seq::new(
                        i as nat,
                        |k: int| (Some(id), tree_placed(state@[k])),
                    ),
                decreases state@.len() - i,
            {
                let ghost prev = queue_view(queue@);
                let (t_id, pos, species) = state[i];
                queue.push((Some(id), Packet::TreePlaced(t_id, pos.x, pos.y, species)));
                assert(queue_view(queue@) =~= prev.push((Some(id), tree_placed(state@[i as int]))));
                i += 1;
                assert(queue_view(queue@) =~= head + Seq::new(
                    i as nat,
                    |k: int| (Some(id), tree_placed(state@[k])),
                ));
            }
        },
        NetworkMessage::PlaceTree(tree_id, pos, species) => {
            queue.push((None, Packet::TreePlaced(tree_id, pos.x, pos.y, species)));
        },
        NetworkMessage::KillTree(tree_id) => {
            queue.push((None, Packet::TreeDied(tree_id)));
        },
        NetworkMessage::WorldTick(health_state) => {
            queue.push((None, Packet::HealthUpdate(health_state)));
        },
        NetworkMessage::TreeTick(tree_changes) => {
            queue.push((None, Packet::TreeUpdate(tree_changes)));
        },
    }
    assert(queue_view(queue@) =~= before + packets_for(old(connections).connections@, msg@));
}

/// The message that a packet from the ready connection `id` sends to the
/// simulation: a request for the world's state or for a tree. Other packets
/// send none.
pub open spec fn message_for(id: ConnectionID, p: PacketView) -> Option<SimulationMessage> {
    match p {
        PacketView::RequestDownloadWorld => Some(SimulationMessage::RequestWorldState(id)),
        PacketView::RequestPlaceTree(x, y, s) => Some(
            SimulationMessage::RequestPlaceTree(id, Position { x, y }, s),
        ),
        _ => None,
    }
}

/// The message that a packet from the ready connection `id` sends to the
/// simulation.
pub fn simulation_message_for(id: ConnectionID, packet: &Packet) -> (msg: Option<SimulationMessage>)
    ensures
        msg == message_for(id, packet@),
{
    match packet {
        Packet::RequestDownloadWorld => Some(SimulationMessage::RequestWorldState(id)),
        Packet::RequestPlaceTree(x, y, s) => Some(
            SimulationMessage::RequestPlaceTree(id, Position::new(*x, *y), *s),
        ),
        _ => None,
    }
}

/// The frame for a packet on its way out and the ids of the connections to
/// write it to: the target if the packet has one and the connection is
/// there, else every ready connection. There is no frame for a packet that
/// the server may not send or that is too long for one frame.
pub fn outbound_writes(connections: &ConnectionManager, target: Option<ConnectionID>, p: &Packet) -> (res:
    Option<(Vec<u8>, Vec<ConnectionID>)>)
    ensures
        res is Some <==> server_may_send(p@) && wire_bytes(p@).len() <= MAX_PAYLOAD && (
        target matches Some(id) ==> has_id(connections.connections@, id)),
        res matches Some((frame, ids)) ==> frame@ == server_frame(wire_bytes(p@)) && ids@ == (
        match target {
            Some(id) => seq![id],
            None => ready_ids(connections.connections@),
        }),
{
    match target {
        Some(id) => match connections.send_to(id, p) {
            Some(frame) => {
                let mut ids: Vec<ConnectionID> = Vec::new();
                ids.push(id);
                assert(ids@ =~= seq![id]);
                Some((frame, ids))
            },
            None => None,
        },
        None => connections.broadcast_to_authed(p),
    }
}

/// The message that passes a connection's pending request on.
pub open spec fn request_of(c: Connection) -> SimulationMessage {
    match c.state {
        ConnectionState::AttemptingAuth { token, .. } => SimulationMessage::AttemptAuthSession(
            c.id,
            token,
        ),
        _ => SimulationMessage::RequestNewSession(c.id),
    }
}

/// The messages that pass on the pending requests of one kind, in the order
/// of the connections.
pub open spec fn requests_of(conns: Seq<Connection>, w: Wanted) -> Seq<SimulationMessage>
    decreases conns.len(),
{
    if conns.len() == 0 {
        Seq::empty()
    } else if is_wanted(conns.last(), w) {
        requests_of(conns.drop_last(), w).push(request_of(conns.last()))
    } else {
        requests_of(conns.drop_last(), w)
    }
}

/// The connections once every pending request has been passed on.
pub open spec fn all_forwarded(conns: Seq<Connection>) -> Seq<Connection> {
    Seq::new(conns.len(), |i: int| conns[i].forwarded())
}

/// The connections once the pending requests of one kind have been passed
/// on.
pub open spec fn forwarded_where(conns: Seq<Connection>, w: Wanted) -> Seq<Connection> {
    Seq::new(
        conns.len(),
        |i: int|
            if is_wanted(conns[i], w) {
                conns[i].forwarded()
            } else {
                conns[i]
            },
    )
}

/// Connections without a pending request add no message.
proof fn lemma_requests_skip(conns: Seq<Connection>, w: Wanted, from: int, to: int)
    requires
        0 <= from <= to <= conns.len(),
        forall|i: int| from <= i < to ==> !is_wanted(conns[i], w),
    ensures
        requests_of(conns.take(to), w) == requests_of(conns.take(from), w),
    decreases to - from,
{
    if from < to {
        let part = conns.take(to);
        assert(part.last() == conns[to - 1]);
        assert(part.drop_last() =~= conns.take(to - 1));
        lemma_requests_skip(conns, w, from, to - 1);
    }
}

/// The requests of one kind are the same in two lists whose connections
/// agree on id and on whether and how they are wanted.
proof fn lemma_requests_same(a: Seq<Connection>, b: Seq<Connection>, w: Wanted)
    requires
        a.len() == b.len(),
        forall|i: int|
            0 <= i < a.len() ==> is_wanted(a[i], w) == is_wanted(b[i], w) && (is_wanted(a[i], w)
                ==> request_of(a[i]) == request_of(b[i])),
    ensures
        requests_of(a, w) == requests_of(b, w),
    decreases a.len(),
{
    if a.len() > 0 {
        lemma_requests_same(a.drop_last(), b.drop_last(), w);
    }
}

/// Passes on the pending requests of one kind.
fn drain_requests(connections: &mut ConnectionManager, w: Wanted) -> (msgs: Vec<SimulationMessage>)
    requires
        old(connections).wf(),
        w is NewSessionRequest || w is AuthAttempt,
    ensures
        final(connections).wf(),
        final(connections).next_id == old(connections).next_id,
        final(connections).connections@ == forwarded_where(old(connections).connections@, w),
        msgs@ == requests_of(old(connections).connections@, w),
{
    let ghost before = connections.connections@;
    let ghost mut done: int = 0;
    let mut msgs: Vec<SimulationMessage> = Vec::new();
    assert(before.take(0) =~= Seq::<Connection>::empty());
    loop
        invariant
            connections.wf(),
            connections.next_id == old(connections).next_id,
            w is NewSessionRequest || w is AuthAttempt,
            before == old(connections).connections@,
            0 <= done <= before.len(),
            connections.connections@.len() == before.len(),
            forall|i: int|
                0 <= i < before.len() ==> connections.connections@[i] == (if i < done
                    && is_wanted(before[i], w) {
                    before[i].forwarded()
                } else {
                    before[i]
                }),
            msgs@ == requests_of(before.take(done), w),
        decreases before.len() - done,
    {
        let ghost now = connections.connections@;
        let ghost at = first_wanted(now, w, 0) as int;
        proof {
            lemma_first_wanted(now, w, 0);
            if at < now.len() {
                if at < done {
                    assert(!is_wanted(now[at], w));
                }
            }
            assert forall|i: int| done <= i < at implies !is_wanted(before[i], w) by {
                assert(now[i] == before[i]);
            }
            if done <= at {
                lemma_requests_skip(before, w, done, at);
            }
        }
        let next = match w {
            Wanted::NewSessionRequest => match connections.poll_new_sessions() {
                Some(id) => Some(SimulationMessage::RequestNewSession(id)),
                None => None,
            },
            _ => match connections.poll_auth_attempts() {
                Some((id, token)) => Some(SimulationMessage::AttemptAuthSession(id, token)),
                None => None,
            },
        };
        match next {
            Some(msg) => {
                proof {
                    let part = before.take(at + 1);
                    assert(part.last() == before[at]);
                    assert(part.drop_last() =~= before.take(at));
                    assert(msg == request_of(before[at]));
                    done = at + 1;
                }
                msgs.push(msg);
            },
            None => {
                proof {
                    assert(before.take(before.len() as int) =~= before);
                    if done <= at {
                        assert(at == before.len());
                    }
                    assert(connections.connections@ =~= forwarded_where(before, w));
                }
                return msgs;
            },
        }
    }
}

/// Passes on every pending request of the connections: first the requests
/// for a new session, then the offered tokens, each kind in the order of the
/// connections.
pub fn drain_session_requests(connections: &mut ConnectionManager) -> (msgs: Vec<
    SimulationMessage,
>)
    requires
        old(connections).wf(),
    ensures
        final(connections).wf(),
        final(connections).next_id == old(connections).next_id,
        final(connections).connections@ == all_forwarded(old(connections).connections@),
        msgs@ == requests_of(old(connections).connections@, Wanted::NewSessionRequest)
            + requests_of(old(connections).connections@, Wanted::AuthAttempt),
{
    let ghost before = connections.connections@;
    let mut msgs = drain_requests(connections, Wanted::NewSessionRequest);
    let ghost between = connections.connections@;
    let mut attempts = drain_requests(connections, Wanted::AuthAttempt);
    proof {
        lemma_requests_same(between, before, Wanted::AuthAttempt);
        assert(connections.connections@ =~= all_forwarded(before));
    }
    msgs.append(&mut attempts);
    msgs
}

/// Why a stream is not taken in as a WebSocket connection.
#[derive(PartialEq, Eq, Structural, Copy, Clone, Debug)]
pub enum UpgradeError {
    /// The request could not be read.
    Request(RequestError),
    /// The request is no acceptable upgrade.
    Handshake(HandshakeError),
}

/// Whether the first bytes of a stream ask for an upgrade that the server
/// grants.
pub open spec fn upgrade_check(data: Seq<u8>) -> Result<(), UpgradeError> {
    match parse_request(data) {
        Ok(request) => match handshake_check(request) {
            Ok(_) => Ok(()),
            Err(e) => Err(UpgradeError::Handshake(e)),
        },
        Err(e) => Err(UpgradeError::Request(e)),
    }
}

/// Answers the first bytes that a stream brought. The first part of the
/// result is the reply to send. The second says whether the stream is now a
/// WebSocket connection to register; if it is not, the reply is
/// `400 Bad Request` and the stream is to be closed.
pub fn answer_upgrade(data: &[u8]) -> (res: (Response, Result<(), UpgradeError>))
    ensures
        res.1 == upgrade_check(data@),
        res.0@ == (match parse_request(data@) {
            Ok(request) => handshake_reply(request),
            Err(_) => bad_request_reply(),
        }),
{
    match Request::parse(data) {
        Ok(header) => {
            let (reply, outcome) = init_websocket_connection(&header);
            match outcome {
                Ok(_) => (reply, Ok(())),
                Err(e) => (reply, Err(UpgradeError::Handshake(e))),
            }
        },
        Err(e) => (Response::new("HTTP/1.1 400 Bad Request"), Err(UpgradeError::Request(e))),
    }
}

/// A number that nothing here can foretell.
///
/// Trusted: calls `rand::random::<u32>`, which draws from the thread's
/// generator. Nothing is claimed of the result.
#[verifier::external_body]
fn random_u32() -> (r: u32) {
    rand::random::<u32>()
}

/// The session token for a random number: the number modulo the size of the
/// key space.
pub fn session_token(random: u32) -> (token: u32)
    ensures
        token == random % SESSION_KEY_SPACE,
        token < SESSION_KEY_SPACE,
{
    random % SESSION_KEY_SPACE
}

/// What the simulation worker holds: the world, and the health grid and the
/// stages of the trees as they were after the last tick.
pub struct Simulation {
    pub world: World,
    pub health_state: Vec<u8>,
    pub tree_maturities: Vec<(u32, u8)>,
}

/// How the simulation answers a message. `random` is the number from which
/// a new session's token is made, and `clear` says that the place of a
/// requested tree is free.
pub open spec fn answers_to(
    sim: Simulation,
    msg: SimulationMessage,
    random: u32,
    clear: bool,
) -> Seq<NetworkMessageView> {
    match msg {
        SimulationMessage::RequestNewSession(id) => seq![
            NetworkMessageView::NewSession(id, (random % SESSION_KEY_SPACE) as u32),
        ],
        SimulationMessage::AttemptAuthSession(id, token) => seq![
            NetworkMessageView::AuthSuccess(id, token),
        ],
        SimulationMessage::RequestWorldState(id) => seq![
            NetworkMessageView::WorldStateReady(
                id,
                placements_of(sim.world.trees@),
                sim.health_state@,
            ),
            NetworkMessageView::TreeTick(sim.tree_maturities@),
        ],
        SimulationMessage::RequestPlaceTree(_, pos, species) => if sim.world.registry().can_plant(
            pos,
            clear,
        ) {
            seq![NetworkMessageView::PlaceTree(sim.world.next_tree_id, pos, species)]
        } else {
            seq![]
        },
    }
}

/// What a message does to the trees of the world: a request for a tree plants
/// one if it can be planted; no other message touches them.
pub open spec fn registry_after(sim: Simulation, msg: SimulationMessage, clear: bool) -> Registry {
    match msg {
        SimulationMessage::RequestPlaceTree(_, pos, species) => sim.world.registry().after(
            WorldEvent::Plant(species, pos, clear),
        ),
        _ => sim.world.registry(),
    }
}

/// One message for each id: the tree is gone.
pub open spec fn kill_messages(ids: Seq<u32>) -> Seq<NetworkMessageView> {
    Seq::new(ids.len(), |i: int| NetworkMessageView::KillTree(ids[i]))
}

impl Simulation {
    /// The world is well-formed, and the health grid, once a tick has brought
    /// one, has a byte for each cell.
    pub open spec fn wf(&self) -> bool {
        &&& self.world.wf()
        &&& self.health_state@.len() == 0 || self.health_state@.len() == WORLD_W * WORLD_H
    }

    /// A simulation of `world` that has not ticked yet.
    pub fn new(world: World) -> (sim: Simulation)
        ensures
            world.wf() ==> sim.wf(),
            sim.world == world,
            sim.health_state@.len() == 0,
            sim.tree_maturities@.len() == 0,
    {
        Simulation { world, health_state: Vec::new(), tree_maturities: Vec::new() }
    }

    /// Answers a message from the network worker, given the random number for
    /// a new token and whether the place for a new tree is free.
    pub fn respond(&mut self, msg: SimulationMessage, random: u32, clear: bool) -> (out: Vec<
        NetworkMessage,
    >)
        requires
            old(self).wf(),
        ensures
            final(self).wf(),
            messages_view(out@) == answers_to(*old(self), msg, random, clear),
            final(self).world.registry() == registry_after(*old(self), msg, clear),
            final(self).world.last_tick == old(self).world.last_tick,
            final(self).world.tick_period == old(self).world.tick_period,
            final(self).health_state == old(self).health_state,
            final(self).tree_maturities == old(self).tree_maturities,
    {
        let mut out: Vec<NetworkMessage> = Vec::new();
        match msg {
            SimulationMessage::RequestNewSession(con_id) => {
                out.push(NetworkMessage::NewSession(con_id, session_token(random)));
            },
            SimulationMessage::AttemptAuthSession(con_id, token) => {
                out.push(NetworkMessage::AuthSuccess(con_id, token));
            },
            SimulationMessage::RequestWorldState(con_id) => {
                let trees = self.world.placements();
                out.push(
                    NetworkMessage::WorldStateReady(
                        con_id,
                        trees,
                        slice_to_vec(self.health_state.as_slice()),
                    ),
                );
                out.push(NetworkMessage::TreeTick(slice_to_vec(self.tree_maturities.as_slice())));
            },
            SimulationMessage::RequestPlaceTree(_, pos, species) => {
                if let Some(t_id) = self.world.place_tree(species, pos, clear) {
                    out.push(NetworkMessage::PlaceTree(t_id, pos, species));
                }
            },
        }
        assert(messages_view(out@) =~= answers_to(*old(self), msg, random, clear));
        out
    }

    /// Answers a message from the network worker. The token of a new session
    /// is drawn at random; whatever is drawn, the answer is that of
    /// [`Simulation::respond`] for it.
    pub fn handle_message(&mut self, msg: SimulationMessage, clear: bool) -> (out: Vec<
        NetworkMessage,
    >)
        requires
            old(self).wf(),
        ensures
            final(self).wf(),
            exists|random: u32|
                messages_view(out@) == #[trigger] answers_to(*old(self), msg, random, clear),
            final(self).world.registry() == registry_after(*old(self), msg, clear),
            final(self).world.last_tick == old(self).world.last_tick,
            final(self).world.tick_period == old(self).world.tick_period,
            final(self).health_state == old(self).health_state,
            final(self).tree_maturities == old(self).tree_maturities,
    {
        let random = random_u32();
        self.respond(msg, random, clear)
    }

    /// Closes a tick: takes the health grid that the caller worked out from
    /// the land, notes the stages of the trees, and tells the clients of both.
    pub fn finish_tick(&mut self, health_state: Vec<u8>) -> (out: Vec<NetworkMessage>)
        requires
            old(self).wf(),
            health_state@.len() == WORLD_W * WORLD_H,
        ensures
            final(self).wf(),
            final(self).world == old(self).world,
            final(self).health_state@ == health_state@,
            final(self).tree_maturities@ == stages_of(old(self).world.trees@),
            messages_view(out@) == seq![
                NetworkMessageView::WorldTick(health_state@),
                NetworkMessageView::TreeTick(stages_of(old(self).world.trees@)),
            ],
    {
        self.health_state = health_state;
        self.tree_maturities = self.world.maturity_stages();
        let mut out: Vec<NetworkMessage> = Vec::new();
        out.push(NetworkMessage::WorldTick(slice_to_vec(self.health_state.as_slice())));
        out.push(NetworkMessage::TreeTick(slice_to_vec(self.tree_maturities.as_slice())));
        assert(messages_view(out@) =~= seq![
            NetworkMessageView::WorldTick(health_state@),
            NetworkMessageView::TreeTick(stages_of(old(self).world.trees@)),
        ]);
        out
    }

    /// Empties the world's dead list and tells the clients of each tree that
    /// is gone.
    pub fn report_dead(&mut self) -> (out: Vec<NetworkMessage>)
        requires
            old(self).wf(),
        ensures
            final(self).wf(),
            messages_view(out@) == kill_messages(old(self).world.dead_trees@),
            final(self).world.registry() == old(self).world.registry().after(
                WorldEvent::ReportDead,
            ),
            final(self).world.last_tick == old(self).world.last_tick,
            final(self).world.tick_period == old(self).world.tick_period,
            final(self).health_state == old(self).health_state,
            final(self).tree_maturities == old(self).tree_maturities,
    {
        let ids = self.world.take_dead();
        let mut out: Vec<NetworkMessage> = Vec::new();
        let mut i: usize = 0;
        while i < ids.len()
            invariant
                i <= ids@.len(),
                messages_view(out@) == kill_messages(ids@.take(i as int)),
            decreases ids@.len() - i,
        {
            let ghost prev = messages_view(out@);
            out.push(NetworkMessage::KillTree(ids[i]));
            assert(messages_view(out@) =~= prev.push(NetworkMessageView::KillTree(ids@[i as int])));
            i += 1;
            assert(messages_view(out@) =~= kill_messages(ids@.take(i as int)));
        }
        assert(ids@.take(i as int) =~= ids@);
        out
    }
}

} // verus!

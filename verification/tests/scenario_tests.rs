use std::collections::{HashMap, VecDeque};

use forest_core::connections::{ConnectionID, ConnectionManager, ConnectionState};
use forest_core::server::{
    answer_upgrade, drain_session_requests, handle_network_message, outbound_writes,
    simulation_message_for, NetworkMessage, Outbound, Simulation, SimulationMessage,
};
use forest_core::world::{Position, World};

const TREE_RADIUS: f32 = 0.3;

const UPGRADE: &[u8] = b"GET / HTTP/1.1\r\nHost: 0.0.0.0:9001\r\nConnection: Upgrade\r\nUpgrade: websocket\r\nSec-WebSocket-Version: 13\r\nSec-WebSocket-Key: dGhlIHNhbXBsZSBub25jZQ==\r\nSec-WebSocket-Protocol: binary\r\n\r\n";

/// One side of a connection as the server sees it: what the client has sent
/// and not been read yet, and what the server has written.
struct Wire {
    unread: VecDeque<Vec<u8>>,
    written: Vec<Vec<u8>>,
    broken: bool,
}

/// The two workers around the library, with byte queues for streams and no
/// clock: a tick runs when the test asks for one.
struct Server {
    connections: ConnectionManager,
    wires: HashMap<ConnectionID, Wire>,
    queue: Vec<Outbound>,
    to_simulation: Vec<SimulationMessage>,
    to_network: Vec<NetworkMessage>,
    sim: Simulation,
    health: Vec<f32>,
    now: u64,
}

fn masked(payload: &[u8]) -> Vec<u8> {
    let key = [0xa1u8, 0xb2, 0xc3, 0xd4];
    let mut frame = vec![0x82u8, 0x80 | payload.len() as u8];
    frame.extend_from_slice(&key);
    for (i, b) in payload.iter().enumerate() {
        frame.push(b ^ key[i % 4]);
    }
    frame
}

fn payload_of(frame: &[u8]) -> Vec<u8> {
    assert_eq!(frame[0], 0x82);
    assert_eq!(frame[1] & 0x80, 0);
    if frame[1] == 126 {
        let len = (frame[2] as usize) << 8 | frame[3] as usize;
        assert_eq!(frame.len(), 4 + len);
        frame[4..].to_vec()
    } else {
        assert_eq!(frame.len(), 2 + frame[1] as usize);
        frame[2..].to_vec()
    }
}

fn place_tree_packet(x: f32, y: f32, species: u8) -> Vec<u8> {
    let mut p = vec![0x10u8];
    p.extend_from_slice(&x.to_le_bytes());
    p.extend_from_slice(&y.to_le_bytes());
    p.push(species);
    p
}

fn tree_placed_packet(id: u32, x: f32, y: f32, species: u8) -> Vec<u8> {
    let mut p = vec![0x90u8];
    p.extend_from_slice(&id.to_le_bytes());
    p.extend_from_slice(&x.to_le_bytes());
    p.extend_from_slice(&y.to_le_bytes());
    p.push(species);
    p
}

impl Server {
    fn new() -> Server {
        Server {
            connections: ConnectionManager::new(),
            wires: HashMap::new(),
            queue: Vec::new(),
            to_simulation: Vec::new(),
            to_network: Vec::new(),
            sim: Simulation::new(World::with_tick_period(0, 0)),
            health: vec![0.0; 784],
            now: 0,
        }
    }

    fn open(&mut self) -> ConnectionID {
        let (reply, outcome) = answer_upgrade(UPGRADE);
        assert_eq!(outcome, Ok(()));
        assert!(reply.to_bytes().starts_with(b"HTTP/1.1 101 Switching Protocols\r\n"));
        let id = self.connections.register_connection().unwrap();
        self.wires.insert(id, Wire { unread: VecDeque::new(), written: Vec::new(), broken: false });
        id
    }

    fn client_sends(&mut self, id: ConnectionID, payload: &[u8]) {
        self.wires.get_mut(&id).unwrap().unread.push_back(masked(payload));
    }

    fn client_sends_raw(&mut self, id: ConnectionID, frame: &[u8]) {
        self.wires.get_mut(&id).unwrap().unread.push_back(frame.to_vec());
    }

    fn received(&mut self, id: ConnectionID) -> Vec<Vec<u8>> {
        let wire = self.wires.get_mut(&id).unwrap();
        wire.written.drain(..).map(|f| payload_of(&f)).collect()
    }

    fn is_open(&self, id: ConnectionID) -> bool {
        self.connections.connections.iter().any(|c| c.id == id)
    }

    fn state(&self, id: ConnectionID) -> ConnectionState {
        self.connections.connections.iter().find(|c| c.id == id).unwrap().state
    }

    fn try_read(&mut self) -> Option<(ConnectionID, forest_core::packet::Packet)> {
        for index in 0..self.connections.connections.len() {
            let id = self.connections.connections[index].id;
            let data = match self.wires.get_mut(&id).and_then(|w| w.unread.pop_front()) {
                Some(d) => d,
                None => continue,
            };
            if let Some(found) = self.connections.try_read(index, &data) {
                return Some(found);
            }
        }
        None
    }

    fn network_pass(&mut self) {
        assert!(self.connections.is_well_formed());
        for msg in self.to_network.drain(..) {
            handle_network_message(&mut self.connections, msg, &mut self.queue);
        }
        while let Some((id, packet)) = self.try_read() {
            if let Some(msg) = simulation_message_for(id, &packet) {
                self.to_simulation.push(msg);
            }
        }
        self.connections.flush();
        let connections = &self.connections;
        self.wires.retain(|id, _| connections.connections.iter().any(|c| c.id == *id));
        self.to_simulation.extend(drain_session_requests(&mut self.connections));
        for (target, p) in &self.queue {
            if let Some((frame, ids)) = outbound_writes(&self.connections, *target, p) {
                for id in ids {
                    let wire = self.wires.get_mut(&id).unwrap();
                    if wire.broken {
                        self.connections.notify_write_error(id);
                    } else {
                        wire.written.push(frame.clone());
                    }
                }
            }
        }
        self.queue.clear();
        assert!(self.connections.is_well_formed());
    }

    fn is_clear(&self, pos: Position) -> bool {
        self.sim.world.trees.iter().all(|t| {
            let dx = f32::from_bits(t.pos.x) - f32::from_bits(pos.x);
            let dy = f32::from_bits(t.pos.y) - f32::from_bits(pos.y);
            (dx * dx + dy * dy).sqrt() > TREE_RADIUS
        })
    }

    fn simulation_pass(&mut self, tick: bool) {
        assert!(self.sim.world.is_well_formed());
        for msg in std::mem::take(&mut self.to_simulation) {
            let clear = match msg {
                SimulationMessage::RequestPlaceTree(_, pos, _) => self.is_clear(pos),
                _ => true,
            };
            self.to_network.extend(self.sim.handle_message(msg, clear));
        }
        if tick {
            self.now += 1;
            assert!(self.sim.world.update(self.now));
            let rates: Vec<i32> = self
                .sim
                .world
                .trees
                .iter()
                .map(|t| {
                    let x = f32::from_bits(t.pos.x) as usize;
                    let y = f32::from_bits(t.pos.y) as usize;
                    100 + (200.0 * (1.0 - self.health[x + y * 28])) as i32
                })
                .collect();
            self.sim.world.advance_maturity(&rates);
            self.sim.world.harvest_dead();
            let bytes: Vec<u8> = self.health.iter().map(|h| (h * 255.0) as u8).collect();
            self.to_network.extend(self.sim.finish_tick(bytes));
        }
        self.to_network.extend(self.sim.report_dead());
        assert!(self.sim.world.is_well_formed());
    }

    fn round(&mut self) {
        self.network_pass();
        self.simulation_pass(false);
        self.network_pass();
    }

    fn authenticate(&mut self, id: ConnectionID) -> Vec<u8> {
        self.client_sends(id, &[0x01]);
        self.round();
        let got = self.received(id);
        assert_eq!(got.len(), 1);
        assert_eq!(got[0][0], 0x82);
        assert_eq!(got[0].len(), 5);
        let token = got[0][1..].to_vec();
        let mut auth = vec![0x02u8];
        auth.extend_from_slice(&token);
        self.client_sends(id, &auth);
        self.round();
        let got = self.received(id);
        let mut expected = vec![0x80u8];
        expected.extend_from_slice(&token);
        assert_eq!(got, vec![expected]);
        assert_eq!(self.state(id), ConnectionState::Ready);
        token
    }
}

#[test]
fn scenario_new_session() {
    let mut server = Server::new();
    let id = server.open();
    assert_eq!(server.state(id), ConnectionState::NoAuth);

    server.client_sends(id, &[0x01]);
    server.network_pass();
    assert_eq!(server.state(id), ConnectionState::NewSessionRequested);
    assert_eq!(server.to_simulation, vec![SimulationMessage::RequestNewSession(id)]);
    assert!(server.received(id).is_empty());

    server.simulation_pass(false);
    server.network_pass();
    let got = server.received(id);
    assert_eq!(got.len(), 1);
    assert_eq!(got[0].len(), 5);
    assert_eq!(got[0][0], 0x82);
    let token = u32::from_le_bytes([got[0][1], got[0][2], got[0][3], got[0][4]]);
    assert!(token < 19683);
    assert_eq!(server.state(id), ConnectionState::NoAuth);

    let mut auth = vec![0x02u8];
    auth.extend_from_slice(&token.to_le_bytes());
    server.client_sends(id, &auth);
    server.network_pass();
    assert_eq!(
        server.state(id),
        ConnectionState::AttemptingAuth { token, waiting: true }
    );
    server.simulation_pass(false);
    server.network_pass();
    let mut expected = vec![0x80u8];
    expected.extend_from_slice(&token.to_le_bytes());
    assert_eq!(server.received(id), vec![expected]);
    assert_eq!(server.state(id), ConnectionState::Ready);
    assert_eq!(server.connections.connections[0].session_id, Some(token));
}

#[test]
fn scenario_place_and_kill() {
    let mut server = Server::new();
    let id = server.open();
    server.authenticate(id);

    server.client_sends(id, &place_tree_packet(5.0, 5.0, 0x00));
    server.round();
    assert_eq!(server.received(id), vec![tree_placed_packet(0, 5.0, 5.0, 0x00)]);

    let mut deaths = 0;
    for _ in 0..200 {
        server.simulation_pass(true);
        server.network_pass();
        let got = server.received(id);
        let grids: Vec<&Vec<u8>> = got.iter().filter(|p| p[0] == 0x92).collect();
        let updates: Vec<&Vec<u8>> = got.iter().filter(|p| p[0] == 0x93).collect();
        assert_eq!(grids.len(), 1);
        assert_eq!(grids[0].len(), 1 + 784);
        assert_eq!(updates.len(), 1);
        assert_eq!((updates[0].len() - 1) % 5, 0);
        for p in got.iter().filter(|p| p[0] == 0x91) {
            assert_eq!(p, &vec![0x91, 0, 0, 0, 0]);
            deaths += 1;
        }
        assert!(got.iter().all(|p| p[0] == 0x91 || p[0] == 0x92 || p[0] == 0x93));
    }
    assert_eq!(deaths, 1);
    assert_eq!(server.state(id), ConnectionState::Ready);
}

#[test]
fn scenario_tree_update_follows_the_stages() {
    let mut server = Server::new();
    let id = server.open();
    server.authenticate(id);
    server.client_sends(id, &place_tree_packet(5.0, 5.0, 0x02));
    server.round();
    assert_eq!(server.received(id), vec![tree_placed_packet(0, 5.0, 5.0, 0x02)]);
    let mut stages = Vec::new();
    for _ in 0..70 {
        server.simulation_pass(true);
        server.network_pass();
        for p in server.received(id) {
            if p[0] == 0x93 && p.len() == 6 {
                assert_eq!(&p[1..5], &[0, 0, 0, 0]);
                if stages.last() != Some(&p[5]) {
                    stages.push(p[5]);
                }
            }
        }
    }
    assert_eq!(stages, vec![0, 1, 2, 3]);
}

#[test]
fn scenario_overlap_rejection() {
    let mut server = Server::new();
    let id = server.open();
    server.authenticate(id);
    server.client_sends(id, &place_tree_packet(5.0, 5.0, 0x00));
    server.round();
    assert_eq!(server.received(id), vec![tree_placed_packet(0, 5.0, 5.0, 0x00)]);

    server.client_sends(id, &place_tree_packet(5.1, 5.0, 0x00));
    server.round();
    assert!(server.received(id).is_empty());
    assert_eq!(server.state(id), ConnectionState::Ready);
    assert_eq!(server.sim.world.trees.len(), 1);

    server.client_sends(id, &place_tree_packet(-1.0, 0.0, 0x00));
    server.round();
    assert!(server.received(id).is_empty());
    assert_eq!(server.state(id), ConnectionState::Ready);

    server.client_sends(id, &place_tree_packet(6.0, 5.0, 0x01));
    server.round();
    assert_eq!(server.received(id), vec![tree_placed_packet(1, 6.0, 5.0, 0x01)]);
}

#[test]
fn scenario_malformed_tag() {
    let mut server = Server::new();
    let id = server.open();
    server.authenticate(id);
    server.client_sends(id, &[0xff]);
    server.network_pass();
    assert!(!server.is_open(id));
    assert!(!server.wires.contains_key(&id));
    assert!(server.to_simulation.is_empty());
    server.simulation_pass(true);
    server.network_pass();
    assert!(server.connections.connections.is_empty());
}

#[test]
fn scenario_unmasked_client_frame() {
    let mut server = Server::new();
    let id = server.open();
    server.authenticate(id);
    server.client_sends_raw(id, &[0x82, 0x01, 0x03]);
    server.network_pass();
    assert!(!server.is_open(id));
    assert!(server.to_simulation.is_empty());
}

#[test]
fn scenario_broadcast() {
    let mut server = Server::new();
    let a = server.open();
    let b = server.open();
    server.authenticate(a);
    server.authenticate(b);

    server.client_sends(a, &place_tree_packet(5.0, 5.0, 0x00));
    server.round();
    let expected = vec![tree_placed_packet(0, 5.0, 5.0, 0x00)];
    assert_eq!(server.received(a), expected);
    assert_eq!(server.received(b), expected);

    server.wires.get_mut(&a).unwrap().broken = true;
    server.simulation_pass(true);
    server.network_pass();
    let got = server.received(b);
    assert_eq!(got.iter().filter(|p| p[0] == 0x92).count(), 1);
    assert_eq!(got.iter().filter(|p| p[0] == 0x93).count(), 1);
    assert_eq!(server.state(a), ConnectionState::AwaitingDeletion);
    assert_eq!(server.state(b), ConnectionState::Ready);

    server.simulation_pass(true);
    server.network_pass();
    assert!(!server.is_open(a));
    let got = server.received(b);
    assert_eq!(got.iter().filter(|p| p[0] == 0x92).count(), 1);
    assert_eq!(got.iter().filter(|p| p[0] == 0x93).count(), 1);
}

#[test]
fn scenario_world_download() {
    let mut server = Server::new();
    let a = server.open();
    let b = server.open();
    server.authenticate(a);
    server.authenticate(b);
    server.client_sends(a, &place_tree_packet(1.0, 2.0, 0x01));
    server.client_sends(a, &place_tree_packet(3.0, 4.0, 0x02));
    server.round();
    server.round();
    server.received(a);
    server.received(b);
    server.simulation_pass(true);
    server.network_pass();
    server.received(a);
    server.received(b);

    server.client_sends(b, &[0x03]);
    server.round();
    let got = server.received(b);
    assert_eq!(got.len(), 4);
    assert_eq!(got[0][0], 0x92);
    assert_eq!(got[0].len(), 785);
    assert_eq!(got[1], tree_placed_packet(0, 1.0, 2.0, 0x01));
    assert_eq!(got[2], tree_placed_packet(1, 3.0, 4.0, 0x02));
    assert_eq!(got[3], vec![0x93, 0, 0, 0, 0, 0, 1, 0, 0, 0, 0]);
    let other = server.received(a);
    assert_eq!(other, vec![vec![0x93, 0, 0, 0, 0, 0, 1, 0, 0, 0, 0]]);
}

#[test]
fn scenario_packets_before_auth_are_not_forwarded() {
    let mut server = Server::new();
    let id = server.open();
    server.client_sends(id, &place_tree_packet(5.0, 5.0, 0x00));
    server.client_sends(id, &[0x03]);
    server.round();
    server.round();
    assert!(server.received(id).is_empty());
    assert!(server.sim.world.trees.is_empty());
    assert_eq!(server.state(id), ConnectionState::NoAuth);
}

#[test]
fn scenario_bad_upgrade_is_not_registered() {
    let (reply, outcome) = answer_upgrade(b"GET / HTTP/1.1\r\nUpgrade: websocket\r\n\r\n");
    assert!(outcome.is_err());
    assert_eq!(reply.to_bytes(), b"HTTP/1.1 400 Bad Request\r\n\r\n".to_vec());
}

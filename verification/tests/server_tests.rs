use forest_core::connections::{ConnectionManager, ConnectionState};
use forest_core::http::RequestError;
use forest_core::packet::Packet;
use forest_core::rendering::{StencilFunc, StencilOp, Viewport};
use forest_core::server::{
    answer_upgrade, drain_session_requests, handle_network_message, outbound_writes,
    session_token, simulation_message_for, NetworkMessage, Outbound, Simulation,
    SimulationMessage, UpgradeError, SESSION_KEY_SPACE,
};
use forest_core::world::{Maturity, Position, Species, World};
use forest_core::ws::HandshakeError;

fn at(x: f32, y: f32) -> Position {
    Position::new(x.to_bits(), y.to_bits())
}

fn manager_with(n: usize) -> ConnectionManager {
    let mut m = ConnectionManager::new();
    for _ in 0..n {
        m.register_connection();
    }
    m
}

fn describe(queue: &[Outbound]) -> Vec<String> {
    queue.iter().map(|(target, p)| format!("{:?} {:?}", target, p)).collect()
}

#[test]
fn a_new_session_reaches_the_client_that_asked() {
    let mut m = manager_with(2);
    m.connections[1].state = ConnectionState::NewSessionRequested;
    let mut queue: Vec<Outbound> = Vec::new();
    handle_network_message(&mut m, NetworkMessage::NewSession(2, 4711), &mut queue);
    assert_eq!(describe(&queue), vec!["Some(2) NewSession(4711)"]);
    assert_eq!(m.connections[1].state, ConnectionState::NoAuth);
    handle_network_message(&mut m, NetworkMessage::NewSession(2, 4711), &mut queue);
    handle_network_message(&mut m, NetworkMessage::NewSession(1, 1), &mut queue);
    handle_network_message(&mut m, NetworkMessage::NewSession(9, 1), &mut queue);
    assert_eq!(queue.len(), 1);
}

#[test]
fn an_auth_success_reaches_the_client_that_waits() {
    let mut m = manager_with(2);
    m.connections[0].state = ConnectionState::AttemptingAuth { token: 5, waiting: true };
    let mut queue: Vec<Outbound> = Vec::new();
    handle_network_message(&mut m, NetworkMessage::AuthSuccess(1, 5), &mut queue);
    assert_eq!(describe(&queue), vec!["Some(1) AuthSuccessful(5)"]);
    assert_eq!(m.connections[0].state, ConnectionState::Ready);
    assert_eq!(m.connections[0].session_id, Some(5));
    handle_network_message(&mut m, NetworkMessage::AuthSuccess(1, 5), &mut queue);
    handle_network_message(&mut m, NetworkMessage::AuthSuccess(2, 5), &mut queue);
    assert_eq!(queue.len(), 1);
    assert_eq!(m.connections[1].state, ConnectionState::NoAuth);
}

#[test]
fn an_auth_failure_is_always_reported() {
    let mut m = manager_with(1);
    m.connections[0].state = ConnectionState::AttemptingAuth { token: 5, waiting: true };
    let mut queue: Vec<Outbound> = Vec::new();
    handle_network_message(&mut m, NetworkMessage::AuthFail(1), &mut queue);
    handle_network_message(&mut m, NetworkMessage::AuthFail(8), &mut queue);
    assert_eq!(describe(&queue), vec!["Some(1) AuthFail", "Some(8) AuthFail"]);
    assert_eq!(m.connections[0].state, ConnectionState::NoAuth);
    assert_eq!(m.connections[0].failed_auth_attempts, 1);
}

#[test]
fn the_world_state_goes_to_one_connection() {
    let mut m = manager_with(1);
    let mut queue: Vec<Outbound> = vec![(None, Packet::TreeDied(3))];
    let trees = vec![(0, at(5.0, 5.0), Species::A), (4, at(1.0, 2.0), Species::C)];
    handle_network_message(
        &mut m,
        NetworkMessage::WorldStateReady(1, trees, vec![1, 2, 3]),
        &mut queue,
    );
    assert_eq!(
        describe(&queue),
        vec![
            String::from("None TreeDied(3)"),
            String::from("Some(1) HealthUpdate([1, 2, 3])"),
            format!("Some(1) TreePlaced(0, {}, {}, A)", 5.0f32.to_bits(), 5.0f32.to_bits()),
            format!("Some(1) TreePlaced(4, {}, {}, C)", 1.0f32.to_bits(), 2.0f32.to_bits()),
        ]
    );
}

#[test]
fn world_events_go_to_everyone() {
    let mut m = manager_with(1);
    let mut queue: Vec<Outbound> = Vec::new();
    handle_network_message(
        &mut m,
        NetworkMessage::PlaceTree(7, at(5.0, 5.0), Species::B),
        &mut queue,
    );
    handle_network_message(&mut m, NetworkMessage::KillTree(7), &mut queue);
    handle_network_message(&mut m, NetworkMessage::WorldTick(vec![9, 9]), &mut queue);
    handle_network_message(&mut m, NetworkMessage::TreeTick(vec![(7, 2)]), &mut queue);
    assert_eq!(
        describe(&queue),
        vec![
            format!("None TreePlaced(7, {}, {}, B)", 5.0f32.to_bits(), 5.0f32.to_bits()),
            String::from("None TreeDied(7)"),
            String::from("None HealthUpdate([9, 9])"),
            String::from("None TreeUpdate([(7, 2)])"),
        ]
    );
    assert_eq!(m.connections[0].state, ConnectionState::NoAuth);
}

#[test]
fn client_packets_become_simulation_messages() {
    assert_eq!(
        simulation_message_for(3, &Packet::RequestDownloadWorld),
        Some(SimulationMessage::RequestWorldState(3))
    );
    assert_eq!(
        simulation_message_for(3, &Packet::RequestPlaceTree(1, 2, Species::C)),
        Some(SimulationMessage::RequestPlaceTree(3, Position { x: 1, y: 2 }, Species::C))
    );
    assert_eq!(simulation_message_for(3, &Packet::Debug(String::from("x"))), None);
    assert_eq!(simulation_message_for(3, &Packet::RequestNewSession), None);
    assert_eq!(simulation_message_for(3, &Packet::AttemptAuthSession(1)), None);
    assert_eq!(simulation_message_for(3, &Packet::AuthFail), None);
}

#[test]
fn pending_requests_are_passed_on_in_order() {
    let mut m = manager_with(5);
    m.connections[0].state = ConnectionState::AttemptingAuth { token: 100, waiting: false };
    m.connections[1].state = ConnectionState::AwaitingNewSession;
    m.connections[2].state = ConnectionState::AttemptingAuth { token: 300, waiting: true };
    m.connections[3].state = ConnectionState::AttemptingAuth { token: 400, waiting: false };
    m.connections[4].state = ConnectionState::AwaitingNewSession;
    let msgs = drain_session_requests(&mut m);
    assert_eq!(
        msgs,
        vec![
            SimulationMessage::RequestNewSession(2),
            SimulationMessage::RequestNewSession(5),
            SimulationMessage::AttemptAuthSession(1, 100),
            SimulationMessage::AttemptAuthSession(4, 400),
        ]
    );
    let states: Vec<ConnectionState> = m.connections.iter().map(|c| c.state).collect();
    assert_eq!(
        states,
        vec![
            ConnectionState::AttemptingAuth { token: 100, waiting: true },
            ConnectionState::NewSessionRequested,
            ConnectionState::AttemptingAuth { token: 300, waiting: true },
            ConnectionState::AttemptingAuth { token: 400, waiting: true },
            ConnectionState::NewSessionRequested,
        ]
    );
    assert_eq!(drain_session_requests(&mut m), vec![]);
}

#[test]
fn targeted_packets_are_written_to_their_target() {
    let mut m = manager_with(2);
    m.connections[1].state = ConnectionState::Ready;
    m.connections[1].session_id = Some(1);
    let (frame, ids) = outbound_writes(&m, Some(1), &Packet::NewSession(3)).unwrap();
    assert_eq!(ids, vec![1]);
    assert_eq!(frame, vec![0x82, 5, 0x82, 3, 0, 0, 0]);
    assert!(outbound_writes(&m, Some(5), &Packet::NewSession(3)).is_none());
    assert!(outbound_writes(&m, Some(1), &Packet::RequestNewSession).is_none());
    let (frame, ids) = outbound_writes(&m, None, &Packet::TreeDied(2)).unwrap();
    assert_eq!(ids, vec![2]);
    assert_eq!(frame, vec![0x82, 5, 0x91, 2, 0, 0, 0]);
    assert!(outbound_writes(&m, None, &Packet::RequestDownloadWorld).is_none());
}

#[test]
fn session_tokens_stay_in_the_key_space() {
    assert_eq!(SESSION_KEY_SPACE, 3u32.pow(9));
    assert_eq!(session_token(0), 0);
    assert_eq!(session_token(19682), 19682);
    assert_eq!(session_token(19683), 0);
    assert_eq!(session_token(u32::MAX), u32::MAX % 19683);
    assert_eq!(session_token(123_456_789), 123_456_789 % 19683);
}

#[test]
fn the_simulation_answers_session_requests() {
    let mut sim = Simulation::new(World::new(0));
    let out = sim.respond(SimulationMessage::RequestNewSession(4), 40000, true);
    assert_eq!(format!("{:?}", out), "[NewSession(4, 634)]");
    let out = sim.respond(SimulationMessage::AttemptAuthSession(4, 634), 1, false);
    assert_eq!(format!("{:?}", out), "[AuthSuccess(4, 634)]");
    let drawn = sim.handle_message(SimulationMessage::RequestNewSession(9), true);
    match &drawn[..] {
        [NetworkMessage::NewSession(9, token)] => assert!(*token < SESSION_KEY_SPACE),
        other => panic!("{:?}", other),
    }
    let out = sim.handle_message(SimulationMessage::AttemptAuthSession(2, 77), true);
    assert_eq!(format!("{:?}", out), "[AuthSuccess(2, 77)]");
}

#[test]
fn the_simulation_plants_requested_trees() {
    let mut sim = Simulation::new(World::new(0));
    let msg = SimulationMessage::RequestPlaceTree(1, at(5.0, 5.0), Species::A);
    let out = sim.respond(msg, 0, true);
    match &out[..] {
        [NetworkMessage::PlaceTree(0, pos, Species::A)] => assert_eq!(*pos, at(5.0, 5.0)),
        other => panic!("{:?}", other),
    }
    assert_eq!(sim.world.trees.len(), 1);
    let near = SimulationMessage::RequestPlaceTree(1, at(5.1, 5.0), Species::A);
    assert!(sim.respond(near, 0, false).is_empty());
    let off = SimulationMessage::RequestPlaceTree(1, at(-1.0, 0.0), Species::A);
    assert!(sim.respond(off, 0, true).is_empty());
    assert_eq!(sim.world.trees.len(), 1);
    let next = SimulationMessage::RequestPlaceTree(2, at(9.0, 9.0), Species::C);
    let out = sim.handle_message(next, true);
    assert!(matches!(&out[..], [NetworkMessage::PlaceTree(1, _, Species::C)]));
}

#[test]
fn the_simulation_reports_the_world_state() {
    let mut sim = Simulation::new(World::new(0));
    sim.world.place_tree(Species::A, at(1.0, 1.0), true);
    sim.world.place_tree(Species::B, at(2.0, 2.0), true);
    sim.world.trees[0].maturity = Maturity::Dead;
    let out = sim.respond(SimulationMessage::RequestWorldState(6), 0, true);
    match &out[..] {
        [NetworkMessage::WorldStateReady(6, trees, health), NetworkMessage::TreeTick(stages)] => {
            assert_eq!(trees, &vec![(1, at(2.0, 2.0), Species::B)]);
            assert!(health.is_empty());
            assert!(stages.is_empty());
        }
        other => panic!("{:?}", other),
    }
    sim.world.harvest_dead();
    let tick = sim.finish_tick(vec![5; 784]);
    match &tick[..] {
        [NetworkMessage::WorldTick(health), NetworkMessage::TreeTick(stages)] => {
            assert_eq!(health, &vec![5u8; 784]);
            assert_eq!(stages, &vec![(1, 0)]);
        }
        other => panic!("{:?}", other),
    }
    let out = sim.respond(SimulationMessage::RequestWorldState(6), 0, true);
    match &out[..] {
        [NetworkMessage::WorldStateReady(6, _, health), NetworkMessage::TreeTick(stages)] => {
            assert_eq!(health.len(), 784);
            assert_eq!(stages, &vec![(1, 0)]);
        }
        other => panic!("{:?}", other),
    }
}

#[test]
fn the_simulation_reports_the_dead_once() {
    let mut sim = Simulation::new(World::new(0));
    for i in 0..3 {
        sim.world.place_tree(Species::A, at(i as f32, 1.0), true);
    }
    sim.world.trees[0].maturity = Maturity::Dead;
    sim.world.trees[2].maturity = Maturity::Dead;
    sim.world.harvest_dead();
    assert_eq!(format!("{:?}", sim.report_dead()), "[KillTree(0), KillTree(2)]");
    assert!(sim.report_dead().is_empty());
    assert!(sim.world.dead_trees.is_empty());
}

#[test]
fn each_tick_sends_one_grid_and_one_tree_update() {
    let mut m = manager_with(1);
    let mut sim = Simulation::new(World::with_tick_period(0, 0));
    sim.world.place_tree(Species::A, at(5.0, 5.0), true);
    let mut died = 0;
    for tick in 0..200u64 {
        assert!(sim.world.update(tick));
        let rates = vec![100; sim.world.trees.len()];
        sim.world.advance_maturity(&rates);
        sim.world.harvest_dead();
        let mut queue: Vec<Outbound> = Vec::new();
        for msg in sim.finish_tick(vec![0; 784]) {
            handle_network_message(&mut m, msg, &mut queue);
        }
        for msg in sim.report_dead() {
            handle_network_message(&mut m, msg, &mut queue);
        }
        let tags: Vec<u8> = queue.iter().map(|(_, p)| p.get_type()).collect();
        assert_eq!(&tags[..2], &[0x92, 0x93]);
        match &queue[0].1 {
            Packet::HealthUpdate(grid) => assert_eq!(grid.len(), 784),
            other => panic!("{:?}", other),
        }
        for (target, p) in &queue[2..] {
            assert_eq!(*target, None);
            assert!(matches!(p, Packet::TreeDied(0)));
            died += 1;
        }
    }
    assert_eq!(died, 1);
}

#[test]
fn an_upgrade_is_answered_from_the_first_bytes() {
    let good = b"GET / HTTP/1.1\r\nUpgrade: websocket\r\nSec-WebSocket-Key: dGhlIHNhbXBsZSBub25jZQ==\r\nSec-WebSocket-Protocol: binary\r\n\r\n";
    let (reply, outcome) = answer_upgrade(good);
    assert_eq!(outcome, Ok(()));
    assert_eq!(
        reply.get("Sec-WebSocket-Accept"),
        Some(&b"s3pPLMBiTxaQ9kYGzzhZRbK+xOo="[..])
    );
    let (reply, outcome) = answer_upgrade(b"POST / HTTP/1.1\r\n\r\n");
    assert_eq!(outcome, Err(UpgradeError::Request(RequestError::NotGet)));
    assert_eq!(reply.to_bytes(), b"HTTP/1.1 400 Bad Request\r\n\r\n".to_vec());
    let (_, outcome) = answer_upgrade(b"GET / HTTP/3\r\n\r\n");
    assert_eq!(outcome, Err(UpgradeError::Request(RequestError::InvalidVersion)));
    let (reply, outcome) = answer_upgrade(b"GET / HTTP/1.1\r\nUpgrade: websocket\r\n\r\n");
    assert_eq!(outcome, Err(UpgradeError::Handshake(HandshakeError::InvalidProtocol)));
    assert_eq!(reply.to_bytes(), b"HTTP/1.1 400 Bad Request\r\n\r\n".to_vec());
    let (_, outcome) = answer_upgrade(b"GET / HTTP/1.1\r\n\r\n");
    assert_eq!(outcome, Err(UpgradeError::Handshake(HandshakeError::NotWebSocket)));
    let (_, outcome) = answer_upgrade(
        b"GET / HTTP/1.1\r\nUpgrade: websocket\r\nSec-WebSocket-Protocol: binary\r\n\r\n",
    );
    assert_eq!(outcome, Err(UpgradeError::Handshake(HandshakeError::MissingKey)));
}

#[test]
fn stencil_values_are_the_opengl_enumerants() {
    assert_eq!(StencilOp::Keep.to_gl(), 0x1E00);
    assert_eq!(StencilOp::Zero.to_gl(), 0);
    assert_eq!(StencilOp::Replace.to_gl(), 0x1E01);
    assert_eq!(StencilOp::Invert.to_gl(), 0x150A);
    assert_eq!(StencilFunc::Never.to_gl(), 0x0200);
    assert_eq!(StencilFunc::Less.to_gl(), 0x0201);
    assert_eq!(StencilFunc::Equal.to_gl(), 0x0202);
    assert_eq!(StencilFunc::LessEqual.to_gl(), 0x0203);
    assert_eq!(StencilFunc::Greater.to_gl(), 0x0204);
    assert_eq!(StencilFunc::NotEqual.to_gl(), 0x0205);
    assert_eq!(StencilFunc::GreaterEqual.to_gl(), 0x0206);
    assert_eq!(StencilFunc::Always.to_gl(), 0x0207);
}

#[test]
fn a_new_viewport_has_no_extent() {
    assert_eq!(Viewport::new().size.to_tuple(), (0, 0));
}

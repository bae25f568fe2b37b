use forest_core::connections::{
    frame_packet, Connection, ConnectionManager, ConnectionState, Wanted,
    MAX_FAILED_AUTH_ATTEMPTS,
};
use forest_core::packet::Packet;
use forest_core::world::Species;

fn client_frame(payload: &[u8]) -> Vec<u8> {
    let key = [0x37u8, 0xfa, 0x21, 0x3d];
    let mut frame = vec![0x82u8];
    if payload.len() <= 125 {
        frame.push(0x80 | payload.len() as u8);
    } else {
        frame.push(0x80 | 126);
        frame.push((payload.len() >> 8) as u8);
        frame.push((payload.len() & 0xff) as u8);
    }
    frame.extend_from_slice(&key);
    for (i, b) in payload.iter().enumerate() {
        frame.push(b ^ key[i % 4]);
    }
    frame
}

fn fresh(id: u32) -> Connection {
    Connection { state: ConnectionState::NoAuth, failed_auth_attempts: 0, session_id: None, id }
}

fn in_state(state: ConnectionState) -> Connection {
    let session_id = if state == ConnectionState::Ready { Some(77) } else { None };
    Connection { state, failed_auth_attempts: 3, session_id, id: 9 }
}

fn all_states() -> Vec<ConnectionState> {
    vec![
        ConnectionState::NoAuth,
        ConnectionState::AttemptingAuth { token: 5, waiting: false },
        ConnectionState::AttemptingAuth { token: 5, waiting: true },
        ConnectionState::AwaitingNewSession,
        ConnectionState::NewSessionRequested,
        ConnectionState::Ready,
        ConnectionState::AwaitingDeletion,
    ]
}

fn session_matches_state(c: &Connection) -> bool {
    c.session_id.is_some() == (c.state == ConnectionState::Ready)
}

fn manager_with(n: usize) -> ConnectionManager {
    let mut m = ConnectionManager::new();
    for _ in 0..n {
        m.register_connection();
    }
    m
}

fn make_ready(m: &mut ConnectionManager, index: usize, token: u32) {
    let id = m.connections[index].id;
    let mut payload = vec![0x02u8];
    payload.extend_from_slice(&token.to_le_bytes());
    assert!(m.try_read(index, &client_frame(&payload)).is_none());
    assert_eq!(m.poll_auth_attempts(), Some((id, token)));
    assert!(m.imbue_session(id, token));
}

#[test]
fn connections_get_ids_from_one_on() {
    let mut m = ConnectionManager::new();
    assert_eq!(m.next_id, 1);
    assert!(m.connections.is_empty());
    assert_eq!(m.register_connection(), Some(1));
    assert_eq!(m.register_connection(), Some(2));
    assert_eq!(m.connections.len(), 2);
    assert_eq!(m.connections[1].id, 2);
    assert_eq!(m.connections[0].state, ConnectionState::NoAuth);
    assert_eq!(m.connections[0].failed_auth_attempts, 0);
    assert_eq!(m.connections[0].session_id, None);
    assert_eq!(m.next_id, 3);
}

#[test]
fn connection_ids_run_out_at_the_largest() {
    let mut m = ConnectionManager::new();
    m.next_id = u32::MAX - 1;
    assert_eq!(m.register_connection(), Some(u32::MAX - 1));
    assert_eq!(m.register_connection(), None);
    assert_eq!(m.connections.len(), 1);
    assert_eq!(m.next_id, u32::MAX);
}

#[test]
fn a_session_request_is_taken_up_only_from_no_auth() {
    for state in all_states() {
        let mut c = in_state(state);
        c.process_unauthed_packet(&Packet::RequestNewSession);
        if state == ConnectionState::NoAuth {
            assert_eq!(c.state, ConnectionState::AwaitingNewSession);
        } else {
            assert_eq!(c.state, state);
        }
        assert_eq!(c.failed_auth_attempts, 3);
        assert_eq!(c.id, 9);
    }
}

#[test]
fn an_offered_token_is_taken_up_only_from_no_auth() {
    for state in all_states() {
        let mut c = in_state(state);
        c.process_unauthed_packet(&Packet::AttemptAuthSession(4242));
        if state == ConnectionState::NoAuth {
            assert_eq!(c.state, ConnectionState::AttemptingAuth { token: 4242, waiting: false });
        } else {
            assert_eq!(c.state, state);
        }
    }
}

#[test]
fn other_packets_do_not_move_a_connection_without_session() {
    let others = [
        Packet::Debug(String::from("x")),
        Packet::RequestDownloadWorld,
        Packet::RequestPlaceTree(0, 0, Species::A),
        Packet::AuthFail,
    ];
    for state in all_states() {
        for p in &others {
            let mut c = in_state(state);
            c.process_unauthed_packet(p);
            assert_eq!(c.state, state);
        }
    }
}

#[test]
fn new_session_flow() {
    let mut m = manager_with(1);
    assert!(m.try_read(0, &client_frame(&[0x01])).is_none());
    assert_eq!(m.connections[0].state, ConnectionState::AwaitingNewSession);
    assert_eq!(m.poll_new_sessions(), Some(1));
    assert_eq!(m.connections[0].state, ConnectionState::NewSessionRequested);
    assert_eq!(m.poll_new_sessions(), None);
    assert!(m.notify_new_session(1));
    assert_eq!(m.connections[0].state, ConnectionState::NoAuth);
    assert_eq!(m.connections[0].session_id, None);
    assert!(!m.notify_new_session(1));

    assert!(m.try_read(0, &client_frame(&[0x02, 0x39, 0x30, 0, 0])).is_none());
    assert_eq!(
        m.connections[0].state,
        ConnectionState::AttemptingAuth { token: 12345, waiting: false }
    );
    assert_eq!(m.poll_auth_attempts(), Some((1, 12345)));
    assert_eq!(
        m.connections[0].state,
        ConnectionState::AttemptingAuth { token: 12345, waiting: true }
    );
    assert_eq!(m.poll_auth_attempts(), None);
    assert!(m.imbue_session(1, 12345));
    assert_eq!(m.connections[0].state, ConnectionState::Ready);
    assert_eq!(m.connections[0].session_id, Some(12345));
    assert_eq!(m.connections[0].failed_auth_attempts, 0);
}

#[test]
fn a_session_is_granted_only_to_a_waiting_connection() {
    for state in all_states() {
        let mut m = manager_with(1);
        m.connections[0] = Connection { id: 1, ..in_state(state) };
        let before = m.connections[0];
        let applied = m.imbue_session(1, 55);
        let expected = matches!(
            state,
            ConnectionState::NewSessionRequested | ConnectionState::AttemptingAuth { .. }
        );
        assert_eq!(applied, expected, "{:?}", state);
        if expected {
            assert_eq!(m.connections[0].state, ConnectionState::Ready);
            assert_eq!(m.connections[0].session_id, Some(55));
            assert_eq!(m.connections[0].failed_auth_attempts, 0);
        } else {
            assert_eq!(m.connections[0].state, before.state);
            assert_eq!(m.connections[0].session_id, before.session_id);
            assert_eq!(m.connections[0].failed_auth_attempts, 3);
        }
    }
}

#[test]
fn unknown_ids_change_nothing() {
    let mut m = manager_with(2);
    m.connections[0].state = ConnectionState::NewSessionRequested;
    m.connections[1].state = ConnectionState::AttemptingAuth { token: 1, waiting: true };
    assert!(!m.imbue_session(3, 1));
    assert!(!m.notify_new_session(3));
    m.notify_auth_fail(3);
    m.notify_write_error(0);
    assert_eq!(m.connections[0].state, ConnectionState::NewSessionRequested);
    assert_eq!(
        m.connections[1].state,
        ConnectionState::AttemptingAuth { token: 1, waiting: true }
    );
    assert!(m.send_to(3, &Packet::AuthFail).is_none());
}

#[test]
fn a_new_session_notice_applies_only_when_requested() {
    for state in all_states() {
        let mut m = manager_with(1);
        m.connections[0] = Connection { id: 1, ..in_state(state) };
        let applied = m.notify_new_session(1);
        assert_eq!(applied, state == ConnectionState::NewSessionRequested);
        if applied {
            assert_eq!(m.connections[0].state, ConnectionState::NoAuth);
        } else {
            assert_eq!(m.connections[0].state, state);
        }
        assert!(session_matches_state(&m.connections[0]));
    }
}

#[test]
fn a_failed_auth_returns_to_no_auth() {
    let mut m = manager_with(1);
    m.connections[0].state = ConnectionState::AttemptingAuth { token: 1, waiting: true };
    m.notify_auth_fail(1);
    assert_eq!(m.connections[0].state, ConnectionState::NoAuth);
    assert_eq!(m.connections[0].failed_auth_attempts, 1);
}

#[test]
fn a_failed_auth_that_nobody_waited_for_ends_the_connection() {
    for state in all_states() {
        if state == (ConnectionState::AttemptingAuth { token: 5, waiting: true }) {
            continue;
        }
        let mut m = manager_with(1);
        m.connections[0] = Connection { id: 1, ..in_state(state) };
        m.notify_auth_fail(1);
        assert_eq!(m.connections[0].state, ConnectionState::AwaitingDeletion, "{:?}", state);
        assert_eq!(m.connections[0].session_id, None);
        assert_eq!(m.connections[0].failed_auth_attempts, 4);
    }
}

#[test]
fn too_many_failed_auths_end_the_connection() {
    assert_eq!(MAX_FAILED_AUTH_ATTEMPTS, 100);
    let mut m = manager_with(1);
    for round in 1..=MAX_FAILED_AUTH_ATTEMPTS + 1 {
        assert!(m.try_read(0, &client_frame(&[0x02, 1, 0, 0, 0])).is_none());
        assert_eq!(m.poll_auth_attempts(), Some((1, 1)));
        m.notify_auth_fail(1);
        if round <= MAX_FAILED_AUTH_ATTEMPTS {
            assert_eq!(m.connections[0].state, ConnectionState::NoAuth, "round {}", round);
            assert_eq!(m.connections[0].failed_auth_attempts, round);
        }
    }
    assert_eq!(m.connections[0].state, ConnectionState::AwaitingDeletion);
    assert!(m.connections[0].failed_auth_attempts <= MAX_FAILED_AUTH_ATTEMPTS);
    m.notify_auth_fail(1);
    assert_eq!(m.connections[0].state, ConnectionState::AwaitingDeletion);
    m.flush();
    assert!(m.connections.is_empty());
}

#[test]
fn a_granted_session_forgives_failed_auths() {
    let mut m = manager_with(1);
    for _ in 0..40 {
        m.try_read(0, &client_frame(&[0x02, 1, 0, 0, 0]));
        m.poll_auth_attempts();
        m.notify_auth_fail(1);
    }
    assert_eq!(m.connections[0].failed_auth_attempts, 40);
    make_ready(&mut m, 0, 8);
    assert_eq!(m.connections[0].failed_auth_attempts, 0);
}

#[test]
fn a_session_exists_exactly_while_ready() {
    let mut m = manager_with(3);
    let mut state = 5u32;
    for step in 0..3000 {
        state = state.wrapping_mul(1_664_525).wrapping_add(1_013_904_223);
        let pick = (state >> 16) % 12;
        let index = ((state >> 8) % 3) as usize;
        if m.connections.len() < 3 {
            m.register_connection();
        }
        let index = index.min(m.connections.len() - 1);
        let id = m.connections[index].id;
        match pick {
            0 => {
                m.try_read(index, &client_frame(&[0x01]));
            }
            1 => {
                m.try_read(index, &client_frame(&[0x02, 7, 0, 0, 0]));
            }
            2 => {
                m.poll_new_sessions();
            }
            3 => {
                m.poll_auth_attempts();
            }
            4 => {
                m.imbue_session(id, step);
            }
            5 => {
                m.notify_new_session(id);
            }
            6 => {
                m.notify_auth_fail(id);
            }
            7 => {
                m.try_read(index, &client_frame(&[0x03]));
            }
            8 => {
                m.try_read(index, &[]);
            }
            9 => {
                m.notify_write_error(id);
            }
            10 => {
                m.try_read(index, &client_frame(&[0xff]));
            }
            _ => {
                m.flush();
            }
        }
        for c in &m.connections {
            assert!(session_matches_state(c), "{:?}", c);
            assert!(c.failed_auth_attempts >= 0);
            assert!(c.failed_auth_attempts <= MAX_FAILED_AUTH_ATTEMPTS);
            assert!(c.id < m.next_id);
        }
        for pair in m.connections.windows(2) {
            assert!(pair[0].id < pair[1].id);
        }
    }
}

#[test]
fn polling_takes_connections_in_their_order() {
    let mut m = manager_with(4);
    m.connections[1].state = ConnectionState::AwaitingNewSession;
    m.connections[3].state = ConnectionState::AwaitingNewSession;
    m.connections[0].state = ConnectionState::AttemptingAuth { token: 10, waiting: false };
    m.connections[2].state = ConnectionState::AttemptingAuth { token: 30, waiting: true };
    assert_eq!(m.poll_new_sessions(), Some(2));
    assert_eq!(m.poll_new_sessions(), Some(4));
    assert_eq!(m.poll_new_sessions(), None);
    assert_eq!(m.poll_auth_attempts(), Some((1, 10)));
    assert_eq!(m.poll_auth_attempts(), None);
    assert_eq!(m.connections[1].state, ConnectionState::NewSessionRequested);
    assert_eq!(m.connections[3].state, ConnectionState::NewSessionRequested);
    assert_eq!(
        m.connections[0].state,
        ConnectionState::AttemptingAuth { token: 10, waiting: true }
    );
}

#[test]
fn finding_gives_the_first_match_or_the_length() {
    let mut m = manager_with(3);
    m.connections[2].state = ConnectionState::AwaitingNewSession;
    assert_eq!(m.find(Wanted::Id(1)), 0);
    assert_eq!(m.find(Wanted::Id(3)), 2);
    assert_eq!(m.find(Wanted::Id(4)), 3);
    assert_eq!(m.find(Wanted::NewSessionRequest), 2);
    assert_eq!(m.find(Wanted::AuthAttempt), 3);
    assert_eq!(ConnectionManager::new().find(Wanted::Id(1)), 0);
}

#[test]
fn the_flush_drops_what_is_over() {
    let mut m = manager_with(5);
    m.connections[0].state = ConnectionState::AwaitingDeletion;
    m.connections[3].state = ConnectionState::AwaitingDeletion;
    m.connections[1].state = ConnectionState::AwaitingNewSession;
    m.flush();
    let ids: Vec<u32> = m.connections.iter().map(|c| c.id).collect();
    assert_eq!(ids, vec![2, 3, 5]);
    assert_eq!(m.connections[0].state, ConnectionState::AwaitingNewSession);
    assert_eq!(m.next_id, 6);
    assert_eq!(m.register_connection(), Some(6));
    m.flush();
    assert_eq!(m.connections.len(), 4);
}

#[test]
fn packets_from_ready_connections_reach_the_caller() {
    let mut m = manager_with(2);
    make_ready(&mut m, 1, 9);
    let got = m.try_read(1, &client_frame(&[0x03]));
    assert!(matches!(got, Some((2, Packet::RequestDownloadWorld))));
    let place = [0x10, 0, 0, 0xa0, 0x40, 0, 0, 0xa0, 0x40, 0x00];
    match m.try_read(1, &client_frame(&place)) {
        Some((2, Packet::RequestPlaceTree(x, y, Species::A))) => {
            assert_eq!(f32::from_bits(x), 5.0);
            assert_eq!(f32::from_bits(y), 5.0);
        }
        other => panic!("{:?}", other),
    }
    match m.try_read(1, &client_frame(&[0x00, b'h', b'i'])) {
        Some((2, Packet::Debug(text))) => assert_eq!(text, "hi"),
        other => panic!("{:?}", other),
    }
    assert_eq!(m.connections[1].state, ConnectionState::Ready);
    assert_eq!(m.connections[1].session_id, Some(9));
}

#[test]
fn packets_before_a_session_do_not_reach_the_caller() {
    let mut m = manager_with(1);
    assert!(m.try_read(0, &client_frame(&[0x03])).is_none());
    assert!(m.try_read(0, &client_frame(&[0x00, b'x'])).is_none());
    assert_eq!(m.connections[0].state, ConnectionState::NoAuth);
}

#[test]
fn a_ready_connection_ignores_session_packets() {
    let mut m = manager_with(1);
    make_ready(&mut m, 0, 9);
    let got = m.try_read(0, &client_frame(&[0x01]));
    assert!(matches!(got, Some((1, Packet::RequestNewSession))));
    assert_eq!(m.connections[0].state, ConnectionState::Ready);
}

#[test]
fn server_packets_from_a_client_are_dropped() {
    for ready in [false, true] {
        let mut m = manager_with(1);
        if ready {
            make_ready(&mut m, 0, 9);
        }
        let before = m.connections[0];
        assert!(m.try_read(0, &client_frame(&[0x80, 1, 0, 0, 0])).is_none());
        assert!(m.try_read(0, &client_frame(&[0x81])).is_none());
        assert!(m.try_read(0, &client_frame(&[0x92, 1, 2, 3])).is_none());
        assert_eq!(m.connections[0].state, before.state);
        assert_eq!(m.connections[0].session_id, before.session_id);
    }
}

#[test]
fn a_malformed_tag_ends_the_connection() {
    let mut m = manager_with(1);
    make_ready(&mut m, 0, 9);
    assert!(m.try_read(0, &client_frame(&[0xff])).is_none());
    assert_eq!(m.connections[0].state, ConnectionState::AwaitingDeletion);
    assert_eq!(m.connections[0].session_id, None);
    m.flush();
    assert!(m.connections.is_empty());
}

#[test]
fn an_unmasked_frame_ends_the_connection() {
    let mut m = manager_with(1);
    make_ready(&mut m, 0, 9);
    assert!(m.try_read(0, &[0x82, 0x01, 0x03]).is_none());
    assert_eq!(m.connections[0].state, ConnectionState::AwaitingDeletion);
    assert!(m.send_to(1, &Packet::AuthFail).is_some());
    assert_eq!(m.broadcast_to_authed(&Packet::TreeDied(1)).unwrap().1, Vec::<u32>::new());
}

#[test]
fn bad_reads_end_the_connection() {
    let short_payload = [0x02u8, 1, 2];
    let bad: Vec<Vec<u8>> = vec![
        vec![],
        vec![0x82],
        vec![0x88, 0x80, 0, 0, 0, 0],
        vec![0x81, 0x80, 0, 0, 0, 0],
        vec![0x02, 0x80, 0, 0, 0, 0],
        vec![0x82, 0xff, 0, 0, 0, 0, 0, 0, 0, 0, 1, 2, 3, 4],
        vec![0x82, 0x85, 1, 2, 3, 4, 0],
        client_frame(&[]),
        client_frame(&short_payload),
        client_frame(&[0x10, 0, 0, 0, 0, 0, 0, 0, 0, 9]),
    ];
    for data in bad {
        let mut m = manager_with(2);
        assert!(m.try_read(1, &data).is_none());
        assert_eq!(m.connections[1].state, ConnectionState::AwaitingDeletion, "{:?}", data);
        assert_eq!(m.connections[0].state, ConnectionState::NoAuth);
    }
}

#[test]
fn a_write_error_ends_only_that_connection() {
    let mut m = manager_with(2);
    make_ready(&mut m, 0, 1);
    make_ready(&mut m, 1, 2);
    let (_, targets) = m.broadcast_to_authed(&Packet::TreeDied(0)).unwrap();
    assert_eq!(targets, vec![1, 2]);
    m.notify_write_error(1);
    assert_eq!(m.connections[0].state, ConnectionState::AwaitingDeletion);
    assert_eq!(m.connections[0].session_id, None);
    assert_eq!(m.connections[1].state, ConnectionState::Ready);
    let (frame, targets) = m.broadcast_to_authed(&Packet::HealthUpdate(vec![1; 784])).unwrap();
    assert_eq!(targets, vec![2]);
    assert_eq!(frame.len(), 4 + 785);
    assert_eq!(&frame[..5], &[0x82, 126, 0x03, 0x11, 0x92]);
}

#[test]
fn sending_frames_the_packet() {
    let m = manager_with(2);
    assert_eq!(m.send_to(2, &Packet::NewSession(1)), Some(vec![0x82, 5, 0x82, 1, 0, 0, 0]));
    assert_eq!(m.send_to(1, &Packet::AuthFail), Some(vec![0x82, 1, 0x81]));
    assert_eq!(m.send_to(1, &Packet::RequestNewSession), None);
    assert_eq!(m.send_to(1, &Packet::Debug(String::from("x"))), None);
    assert_eq!(m.send_to(7, &Packet::AuthFail), None);
}

#[test]
fn broadcasting_goes_to_the_ready_only() {
    let mut m = manager_with(4);
    make_ready(&mut m, 1, 5);
    make_ready(&mut m, 3, 6);
    let p = Packet::TreePlaced(0, 5.0f32.to_bits(), 5.0f32.to_bits(), Species::A);
    let (frame, targets) = m.broadcast_to_authed(&p).unwrap();
    assert_eq!(targets, vec![2, 4]);
    assert_eq!(
        frame,
        vec![0x82, 14, 0x90, 0, 0, 0, 0, 0, 0, 0xa0, 0x40, 0, 0, 0xa0, 0x40, 0]
    );
    assert!(m.broadcast_to_authed(&Packet::RequestDownloadWorld).is_none());
    let none = ConnectionManager::new().broadcast_to_authed(&Packet::AuthFail).unwrap();
    assert_eq!(none.1, Vec::<u32>::new());
}

#[test]
fn packets_too_long_for_a_frame_are_not_framed() {
    assert!(frame_packet(&Packet::HealthUpdate(vec![0; 65534])).is_some());
    assert!(frame_packet(&Packet::HealthUpdate(vec![0; 65535])).is_none());
    assert!(frame_packet(&Packet::TreeUpdate(vec![(0, 0); 13106])).is_some());
    assert!(frame_packet(&Packet::TreeUpdate(vec![(0, 0); 13107])).is_none());
    let m = manager_with(1);
    assert!(m.send_to(1, &Packet::HealthUpdate(vec![0; 65535])).is_none());
    assert!(m.broadcast_to_authed(&Packet::HealthUpdate(vec![0; 70000])).is_none());
    let big = frame_packet(&Packet::HealthUpdate(vec![7; 65534])).unwrap();
    assert_eq!(&big[..5], &[0x82, 126, 0xff, 0xff, 0x92]);
    assert_eq!(big.len(), 65539);
}

#[test]
fn a_connection_frames_its_payload() {
    let c = fresh(1);
    let mut buf = [0u8; 16];
    let len = c.send_payload(&mut buf, &[0x91, 7, 0, 0, 0]);
    assert_eq!(&buf[..len], &[0x82, 5, 0x91, 7, 0, 0, 0]);
    assert!(!c.is_ready());
    assert!(!c.is_awaiting_deletion());
    assert!(!c.is_awaiting_new_session());
    assert!(in_state(ConnectionState::Ready).is_ready());
    assert!(in_state(ConnectionState::AwaitingDeletion).is_awaiting_deletion());
    assert!(in_state(ConnectionState::AwaitingNewSession).is_awaiting_new_session());
}

#[test]
fn closing_clears_the_session() {
    let mut c = in_state(ConnectionState::Ready);
    c.close();
    assert_eq!(c.state, ConnectionState::AwaitingDeletion);
    assert_eq!(c.session_id, None);
    assert_eq!(c.failed_auth_attempts, 3);
    assert_eq!(c.id, 9);
}

#[test]
fn receive_hands_out_packets_of_ready_connections() {
    let mut c = in_state(ConnectionState::Ready);
    assert!(matches!(c.receive(&client_frame(&[0x03])), Some(Packet::RequestDownloadWorld)));
    let mut d = fresh(4);
    assert!(d.receive(&client_frame(&[0x03])).is_none());
    assert!(d.receive(&client_frame(&[0x01])).is_none());
    assert_eq!(d.state, ConnectionState::AwaitingNewSession);
    let mut e = fresh(5);
    e.auth_failed();
    assert_eq!(e.state, ConnectionState::AwaitingDeletion);
    assert_eq!(e.failed_auth_attempts, 1);
}

#[test]
fn the_manager_knows_when_it_is_well_formed() {
    let mut m = manager_with(3);
    assert!(m.is_well_formed());
    assert!(ConnectionManager::new().is_well_formed());
    make_ready(&mut m, 1, 4);
    assert!(m.is_well_formed());

    let mut bad = manager_with(3);
    bad.connections[1].session_id = Some(1);
    assert!(!bad.is_well_formed());

    let mut bad = manager_with(3);
    bad.connections[2].state = ConnectionState::Ready;
    assert!(!bad.is_well_formed());

    let mut bad = manager_with(3);
    bad.connections[0].failed_auth_attempts = MAX_FAILED_AUTH_ATTEMPTS + 1;
    assert!(!bad.is_well_formed());

    let mut bad = manager_with(3);
    bad.connections[0].failed_auth_attempts = -1;
    assert!(!bad.is_well_formed());

    let mut bad = manager_with(3);
    bad.connections[2].id = 2;
    assert!(!bad.is_well_formed());

    let mut bad = manager_with(3);
    bad.connections[0].id = 3;
    assert!(!bad.is_well_formed());

    let mut bad = manager_with(3);
    bad.next_id = 3;
    assert!(!bad.is_well_formed());

    let mut bad = ConnectionManager::new();
    bad.next_id = 0;
    assert!(!bad.is_well_formed());
}

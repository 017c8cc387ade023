use socks_broker::broker::{connect_reply_code, ProxyManager, RouteAction};
use socks_broker::packet::{
    build_data_frame, build_init_session_command, CommandType, Frame, PacketType,
};
use socks_broker::vetting::{vet_response, Candidate, VetState, VetVerdict};

const TIMEOUT: u64 = 30;

fn manager_with_slaves(mode: u8) -> ProxyManager {
    let mut m = ProxyManager::new(mode, TIMEOUT);
    m.metrics.note_connection();
    m.admit_slave(b"10.1.1.1:9000".to_vec(), b"1.0.9".to_vec(), b"US".to_vec(), 1254, 0);
    m.metrics.note_connection();
    m.admit_slave(b"10.1.1.2:9000".to_vec(), b"1.0.9".to_vec(), b"CA".to_vec(), 800, 0);
    m
}

fn data_frame(session_id: u32, payload: &[u8]) -> Frame {
    Frame {
        kind: PacketType::Data,
        session_id,
        command: None,
        payload: payload.to_vec(),
    }
}

fn heartbeat_frame(payload: &[u8]) -> Frame {
    Frame {
        kind: PacketType::Command,
        session_id: 0,
        command: Some(CommandType::Heartbeat),
        payload: payload.to_vec(),
    }
}

#[test]
fn empty_roster_refuses_with_network_unreachable() {
    let mut m = ProxyManager::new(2, TIMEOUT);
    let r = m.open_session(b"10.0.0.1", 0);
    assert!(r.is_none());
    assert_eq!(connect_reply_code(&r), 0x03);
}

#[test]
fn assignment_reply_code_is_success() {
    let mut m = manager_with_slaves(2);
    let r = m.open_session(b"10.0.0.1", 1);
    assert!(r.is_some());
    assert_eq!(connect_reply_code(&r), 0x00);
}

#[test]
fn session_ids_are_unique_and_monotone() {
    let mut m = manager_with_slaves(2);
    let (sid1, _) = m.open_session(b"10.0.0.1", 1).unwrap();
    let (sid2, _) = m.open_session(b"10.0.0.2", 1).unwrap();
    let (sid3, _) = m.open_session(b"10.0.0.3", 1).unwrap();
    assert_eq!(sid1, 1);
    assert_eq!(sid2, 2);
    assert_eq!(sid3, 3);
}

#[test]
fn sticky_clients_share_a_slave() {
    let mut m = manager_with_slaves(1);
    let (_, slave_a) = m.open_session(b"10.0.0.1", 1).unwrap();
    let (_, slave_b) = m.open_session(b"10.0.0.1", 2).unwrap();
    assert_eq!(slave_a, slave_b);
}

#[test]
fn nonsticky_picks_fewest_sessions_then_speed() {
    let mut m = manager_with_slaves(2);
    // both idle: the faster slave (id 1, 125.4 Mbps) wins the tie
    let (_, first) = m.open_session(b"10.0.0.1", 1).unwrap();
    assert_eq!(first, 1);
    // now slave 1 carries a session: slave 2 has fewer
    let (_, second) = m.open_session(b"10.0.0.2", 1).unwrap();
    assert_eq!(second, 2);
}

#[test]
fn data_frames_queue_for_the_client_in_order() {
    let mut m = manager_with_slaves(2);
    let (sid, slave) = m.open_session(b"10.0.0.1", 1).unwrap();
    assert!(matches!(
        m.route_frame(slave, &data_frame(sid, b"hel"), 1),
        RouteAction::Delivered(_)
    ));
    assert!(matches!(
        m.route_frame(slave, &data_frame(sid, b"lo"), 1),
        RouteAction::Delivered(_)
    ));
    let chunks = m.drain_session_output(sid);
    assert_eq!(chunks, vec![b"hel".to_vec(), b"lo".to_vec()]);
    // drained: nothing left
    assert!(m.drain_session_output(sid).is_empty());
}

#[test]
fn interleaved_streams_stay_per_session_and_ordered() {
    let mut m = manager_with_slaves(2);
    let (sid_a, slave) = m.open_session(b"10.0.0.1", 1).unwrap();
    let (sid_b, _) = m.open_session(b"10.0.0.2", 1).unwrap();
    let frames = vec![
        data_frame(sid_a, b"al"),
        data_frame(sid_b, b"B1"),
        data_frame(sid_a, b"pha"),
        data_frame(sid_b, b"B2"),
    ];
    m.route_data_frames(slave, &frames, 1);
    let a: Vec<u8> = m.drain_session_output(sid_a).concat();
    let b: Vec<u8> = m.drain_session_output(sid_b).concat();
    assert_eq!(a, b"alpha".to_vec());
    assert_eq!(b, b"B1B2".to_vec());
}

#[test]
fn unknown_session_data_is_dropped() {
    let mut m = manager_with_slaves(2);
    assert!(matches!(
        m.route_frame(1, &data_frame(999, b"x"), 1),
        RouteAction::Ignored
    ));
}

#[test]
fn zero_length_data_frame_closes_the_session() {
    let mut m = manager_with_slaves(2);
    let (sid, slave) = m.open_session(b"10.0.0.1", 1).unwrap();
    match m.route_frame(slave, &data_frame(sid, b""), 1) {
        RouteAction::SessionClosed(closed) => assert_eq!(closed, sid),
        _ => panic!("close marker expected"),
    }
    // closed: later data for it is dropped
    assert!(matches!(
        m.route_frame(slave, &data_frame(sid, b"x"), 1),
        RouteAction::Ignored
    ));
}

#[test]
fn close_session_is_idempotent() {
    let mut m = manager_with_slaves(2);
    let (sid, _) = m.open_session(b"10.0.0.1", 1).unwrap();
    assert!(m.close_session(sid));
    assert!(!m.close_session(sid));
}

#[test]
fn alive_heartbeat_refreshes_liveness() {
    let mut m = manager_with_slaves(2);
    assert!(matches!(
        m.route_frame(1, &heartbeat_frame(b"ALIVE"), 40),
        RouteAction::HeartbeatAccepted
    ));
    assert_eq!(m.slaves[0].last_seen, 40);
    assert_eq!(m.slaves[1].last_seen, 0);
}

#[test]
fn deviant_heartbeat_payload_does_not_touch() {
    let mut m = manager_with_slaves(2);
    assert!(matches!(
        m.route_frame(1, &heartbeat_frame(b"alive"), 40),
        RouteAction::Ignored
    ));
    assert!(matches!(
        m.route_frame(1, &heartbeat_frame(b"ALIVE!"), 40),
        RouteAction::Ignored
    ));
    assert!(matches!(
        m.route_frame(1, &heartbeat_frame(b""), 40),
        RouteAction::Ignored
    ));
    assert_eq!(m.slaves[0].last_seen, 0);
}

#[test]
fn other_commands_are_dropped() {
    let mut m = manager_with_slaves(2);
    let f = Frame {
        kind: PacketType::Command,
        session_id: 0,
        command: Some(CommandType::SpeedCheck),
        payload: b"ALIVE".to_vec(),
    };
    assert!(matches!(m.route_frame(1, &f, 40), RouteAction::Ignored));
    assert_eq!(m.slaves[0].last_seen, 0);
}

#[test]
fn missed_heartbeats_retire_the_slave_with_its_sessions() {
    let mut m = manager_with_slaves(2);
    let (sid, slave) = m.open_session(b"10.0.0.1", 1).unwrap();
    assert_eq!(slave, 1);
    // slave 2 stays fresh; slave 1 misses three ticks
    assert!(matches!(
        m.route_frame(2, &heartbeat_frame(b"ALIVE"), 90),
        RouteAction::HeartbeatAccepted
    ));
    let expired = m.expired_slaves(91);
    assert_eq!(expired, vec![1]);
    let before = m.metrics.slave_disconnections;
    for id in expired {
        m.retire_slave(id);
    }
    assert_eq!(m.metrics.slave_disconnections, before + 1);
    assert_eq!(m.metrics.slave_active_connections, 1);
    // its session is gone
    assert!(!m.close_session(sid));
    // a subsequent client gets a different slave
    let (_, next_slave) = m.open_session(b"10.0.0.1", 91).unwrap();
    assert_eq!(next_slave, 2);
}

#[test]
fn retirement_leaves_other_slaves_untouched() {
    let mut m = manager_with_slaves(2);
    let (sid1, s1) = m.open_session(b"10.0.0.1", 1).unwrap();
    // pin the second client to the other slave
    let (sid2, s2) = m.open_session(b"10.0.0.2", 1).unwrap();
    assert_ne!(s1, s2);
    m.retire_slave(s1);
    assert!(!m.close_session(sid1));
    assert!(m.close_session(sid2));
    assert_eq!(m.slaves.len(), 1);
    assert_eq!(m.slaves[0].id, s2);
}

#[test]
fn sticky_entry_dies_with_its_slave() {
    let mut m = manager_with_slaves(1);
    let (_, s1) = m.open_session(b"10.0.0.1", 1).unwrap();
    m.retire_slave(s1);
    assert!(m.sticky.is_empty());
    // the same client now gets the surviving slave
    let (_, s2) = m.open_session(b"10.0.0.1", 1).unwrap();
    assert_ne!(s1, s2);
}

#[test]
fn vetted_slave_serves_the_first_client_session() {
    let allowed = vec![b"US".to_vec(), b"CA".to_vec()];
    let mut m = ProxyManager::new(1, TIMEOUT);
    m.metrics.note_connection();

    // the slave answers the three vetting commands
    let mut cand = Candidate::new();
    let mut state = VetState::AwaitVersion;
    for (payload, want) in [
        (&b"1.0.9"[..], VetVerdict::Proceed(VetState::AwaitLocation)),
        (&br#"{"data":{"country":"US"}}"#[..], VetVerdict::Proceed(VetState::AwaitSpeed)),
        (&b"125.4"[..], VetVerdict::Admit),
    ] {
        let v = vet_response(&state, payload, &allowed, &mut cand);
        assert_eq!(v, want);
        if let VetVerdict::Proceed(next) = v {
            state = next;
        }
    }
    let slave = m.admit_slave(b"203.0.113.9:4000".to_vec(), cand.version, cand.country, cand.speed_tenths, 0);
    assert_eq!(m.slaves[0].country, b"US".to_vec());
    assert_eq!(m.slaves[0].speed_tenths, 1254);

    // a client connects: session id 1, bound to the vetted slave
    let (sid, chosen) = m.open_session(b"10.0.0.1", 1).unwrap();
    assert_eq!(sid, 1);
    assert_eq!(chosen, slave);
    let init = build_init_session_command(sid, b"example.com:80");
    let mut expected = vec![0x01, 0x00, 0x00, 0x00, 0x01, 0x05, 0x00, 0x00, 0x00, 14];
    expected.extend_from_slice(b"example.com:80");
    assert_eq!(init, expected);
    let first_write = build_data_frame(sid, b"hello");
    assert_eq!(&first_write[..10], &[0x00, 0, 0, 0, 1, 0x00, 0, 0, 0, 5]);
}

#[test]
fn rejected_candidate_counts_a_connection_only() {
    // a slave that fails vetting never reaches the pool: the total
    // connection counter moves, the active gauge does not
    let mut m = ProxyManager::new(2, TIMEOUT);
    m.metrics.note_connection();
    assert_eq!(m.metrics.slave_total_connections, 1);
    assert_eq!(m.metrics.slave_active_connections, 0);
    assert_eq!(m.slaves.len(), 0);
}

use lobby_relay::protocol::{PeerEvent, SendOutcome};
use lobby_relay::registry::PeerRegistry;
use lobby_relay::session::{InboundEvent, MatchmakingDemoTopology, Session, Verdict};

fn join(reg: &mut PeerRegistry, origin: u64, room: &str) -> u64 {
    MatchmakingDemoTopology::connection_requested(reg, origin, Some(room.to_string()));
    let id = reg.register(origin).expect("identity assigned");
    let joined = MatchmakingDemoTopology::open_session(reg, id).expect("room joined");
    assert_eq!(joined, room);
    id
}

fn drain(reg: &mut PeerRegistry, id: u64) -> Vec<PeerEvent> {
    reg.drain_events(id).expect("peer registered")
}

#[test]
fn broadcast_reaches_room_and_only_room() {
    let mut reg = PeerRegistry::new(8);
    let a = join(&mut reg, 1, "lobby1");
    let b = join(&mut reg, 2, "lobby1");
    let c = join(&mut reg, 3, "lobby2");
    drain(&mut reg, a);
    drain(&mut reg, b);
    drain(&mut reg, c);

    let m = vec![1u8, 2, 3];
    let room = "lobby1".to_string();
    let v = MatchmakingDemoTopology::handle_frame(&mut reg, a, &room, &InboundEvent::Binary(m));
    assert_eq!(v, Verdict::Continue);

    assert_eq!(
        drain(&mut reg, b),
        vec![PeerEvent::Application { data: vec![1u8, 2, 3] }]
    );
    assert_eq!(drain(&mut reg, c), vec![]);
    assert_eq!(drain(&mut reg, a), vec![]);
}

#[test]
fn join_announcements_carry_identity() {
    let mut reg = PeerRegistry::new(8);
    let a = join(&mut reg, 1, "lobby1");
    let b = join(&mut reg, 2, "lobby1");
    assert_eq!(
        drain(&mut reg, a),
        vec![PeerEvent::IdAssigned(a), PeerEvent::NewPeer(b)]
    );
    assert_eq!(drain(&mut reg, b), vec![PeerEvent::IdAssigned(b)]);
}

#[test]
fn signal_reaches_named_target_only() {
    let mut reg = PeerRegistry::new(8);
    let a = join(&mut reg, 1, "lobby1");
    let b = join(&mut reg, 2, "lobby1");
    let c = join(&mut reg, 3, "lobby1");
    drain(&mut reg, a);
    drain(&mut reg, b);
    drain(&mut reg, c);

    let payload = "{\"sdp\":\"...\"}".as_bytes().to_vec();
    let env = lobby_relay::codec::encode_request(&lobby_relay::protocol::PeerRequest::Signal {
        receiver: b,
        data: payload.clone(),
    });
    let expected_text = format!("{{\"Signal\":{{\"receiver\":{},\"data\":{{\"sdp\":\"...\"}}}}}}", b);
    assert_eq!(env, expected_text.into_bytes());

    let room = "lobby1".to_string();
    let v = MatchmakingDemoTopology::handle_frame(&mut reg, a, &room, &InboundEvent::Text(env));
    assert_eq!(v, Verdict::Continue);

    assert_eq!(
        drain(&mut reg, b),
        vec![PeerEvent::Signal { sender: a, data: payload }]
    );
    assert_eq!(drain(&mut reg, c), vec![]);
    assert_eq!(drain(&mut reg, a), vec![]);
}

#[test]
fn signal_to_departed_peer_is_dropped_silently() {
    let mut reg = PeerRegistry::new(8);
    let a = join(&mut reg, 1, "lobby1");
    let b = join(&mut reg, 2, "lobby1");
    drain(&mut reg, a);
    drain(&mut reg, b);
    MatchmakingDemoTopology::close_session(&mut reg, b);
    drain(&mut reg, a);

    let env = lobby_relay::codec::encode_request(&lobby_relay::protocol::PeerRequest::Signal {
        receiver: b,
        data: "1".as_bytes().to_vec(),
    });
    let room = "lobby1".to_string();
    let v = MatchmakingDemoTopology::handle_frame(&mut reg, a, &room, &InboundEvent::Text(env));
    assert_eq!(v, Verdict::Continue);
    assert_eq!(drain(&mut reg, a), vec![]);
    assert!(reg.contains_peer(a));
}

#[test]
fn abrupt_disconnect_announces_departure_and_invalidates_identity() {
    let mut reg = PeerRegistry::new(8);
    MatchmakingDemoTopology::connection_requested(&mut reg, 1, Some("lobby1".to_string()));
    let a = reg.register(1).expect("identity assigned");
    let mut session_a = Session::connect();
    session_a.registered(a);
    assert!(session_a.activate(&mut reg));
    let b = join(&mut reg, 2, "lobby1");
    drain(&mut reg, a);
    drain(&mut reg, b);

    let v = session_a.on_inbound(&mut reg, &InboundEvent::TransportFailed);
    assert_eq!(v, Verdict::Stop);
    session_a.finish(&mut reg);

    assert_eq!(drain(&mut reg, b), vec![PeerEvent::PeerLeft(a)]);
    assert!(!reg.contains_peer(a));
    assert_eq!(
        reg.try_send(a, &PeerEvent::NewPeer(99)),
        SendOutcome::UnknownPeer
    );
}

#[test]
fn orderly_close_stops_the_inbound_duty() {
    let mut reg = PeerRegistry::new(8);
    MatchmakingDemoTopology::connection_requested(&mut reg, 1, Some("lobby1".to_string()));
    let a = reg.register(1).expect("identity assigned");
    let mut session_a = Session::connect();
    session_a.registered(a);
    assert!(session_a.activate(&mut reg));
    let v = session_a.on_inbound(&mut reg, &InboundEvent::Closed);
    assert_eq!(v, Verdict::Stop);
    session_a.finish(&mut reg);
    assert!(!reg.contains_peer(a));
}

#[test]
fn malformed_frame_is_ignored_and_next_frame_relayed() {
    let mut reg = PeerRegistry::new(8);
    let a = join(&mut reg, 1, "lobby1");
    let b = join(&mut reg, 2, "lobby1");
    drain(&mut reg, a);
    drain(&mut reg, b);

    let room = "lobby1".to_string();
    let garbage = vec![7u8, 7, 7];
    let v = MatchmakingDemoTopology::handle_frame(&mut reg, a, &room, &InboundEvent::Text(garbage));
    assert_eq!(v, Verdict::Continue);
    assert_eq!(drain(&mut reg, b), vec![]);
    assert!(reg.contains_peer(a));

    let m = vec![42u8];
    let v2 = MatchmakingDemoTopology::handle_frame(&mut reg, a, &room, &InboundEvent::Binary(m));
    assert_eq!(v2, Verdict::Continue);
    assert_eq!(
        drain(&mut reg, b),
        vec![PeerEvent::Application { data: vec![42u8] }]
    );
}

#[test]
fn removing_a_peer_twice_equals_removing_it_once() {
    let mut reg = PeerRegistry::new(8);
    let a = join(&mut reg, 1, "lobby1");
    let b = join(&mut reg, 2, "lobby1");
    drain(&mut reg, a);
    drain(&mut reg, b);

    assert_eq!(
        MatchmakingDemoTopology::close_session(&mut reg, a),
        Some("lobby1".to_string())
    );
    assert_eq!(MatchmakingDemoTopology::close_session(&mut reg, a), None);
    assert_eq!(reg.peer_count(), 1);
    assert_eq!(drain(&mut reg, b), vec![PeerEvent::PeerLeft(a)]);
}

#[test]
fn members_snapshot_is_room_scoped() {
    let mut reg = PeerRegistry::new(8);
    let a = join(&mut reg, 1, "lobby1");
    let b = join(&mut reg, 2, "lobby1");
    let c = join(&mut reg, 3, "lobby2");
    assert_eq!(reg.members_of(&"lobby1".to_string()), vec![a, b]);
    assert_eq!(reg.members_of(&"lobby2".to_string()), vec![c]);
    assert_eq!(reg.members_of(&"lobby3".to_string()), Vec::<u64>::new());
}

#[test]
fn register_without_a_waiting_connection_fails() {
    let mut reg = PeerRegistry::new(8);
    assert_eq!(reg.register(5), None);
}

#[test]
fn reconnecting_origin_takes_the_newer_room() {
    let mut reg = PeerRegistry::new(8);
    MatchmakingDemoTopology::connection_requested(&mut reg, 1, Some("early".to_string()));
    MatchmakingDemoTopology::connection_requested(&mut reg, 1, Some("late".to_string()));
    let id = reg.register(1).expect("identity assigned");
    assert_eq!(
        MatchmakingDemoTopology::open_session(&mut reg, id),
        Some("late".to_string())
    );
}

#[test]
fn pathless_connection_lands_in_the_empty_room() {
    let mut reg = PeerRegistry::new(8);
    MatchmakingDemoTopology::connection_requested(&mut reg, 1, None);
    let id = reg.register(1).expect("identity assigned");
    assert_eq!(
        MatchmakingDemoTopology::open_session(&mut reg, id),
        Some(String::new())
    );
}

#[test]
fn full_queue_drops_oldest_event_first() {
    let mut reg = PeerRegistry::new(1);
    let a = join(&mut reg, 1, "lobby1");
    // capacity one: the identity announcement fills the queue
    assert_eq!(reg.try_send(a, &PeerEvent::NewPeer(7)), SendOutcome::Sent);
    assert_eq!(drain(&mut reg, a), vec![PeerEvent::NewPeer(7)]);
}

#[test]
fn closed_channel_soft_fails_unicast() {
    let mut reg = PeerRegistry::new(8);
    let a = join(&mut reg, 1, "lobby1");
    assert!(reg.close_channel(a));
    assert_eq!(
        reg.try_send(a, &PeerEvent::NewPeer(7)),
        SendOutcome::ChannelClosed
    );
    assert!(reg.contains_peer(a));
}

#[test]
fn identities_are_never_reused_after_removal() {
    let mut reg = PeerRegistry::new(8);
    let a = join(&mut reg, 1, "room");
    MatchmakingDemoTopology::close_session(&mut reg, a);
    let again = join(&mut reg, 1, "room");
    assert_ne!(a, again);
}

#[test]
fn discarding_a_waiting_connection_forgets_it() {
    let mut reg = PeerRegistry::new(8);
    MatchmakingDemoTopology::connection_requested(&mut reg, 1, Some("lobby1".to_string()));
    assert!(reg.discard_waiting(1));
    assert!(!reg.discard_waiting(1));
    assert_eq!(reg.register(1), None);
}

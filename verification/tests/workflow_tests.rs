//! The create/join workflow, the registry, and the end-to-end scenario of two
//! peers meeting in one room.

use gossip_chat::errors::ChatError;
use gossip_chat::message::Message;
use gossip_chat::peer::{PeerAddr, PeerId};
use gossip_chat::registry::Registry;
use gossip_chat::session::{InboundEvent, Outcome, TopicSession};
use gossip_chat::ticket::RoomId;
use gossip_chat::workflow::{
    create_room, fresh_room_key, initial_announcement, join_room, pick_room_key,
    plan_create_or_join, room_key_for, Plan,
};

fn id_bytes(seed: u8) -> Vec<u8> {
    let mut v = Vec::new();
    for i in 0..32u32 {
        v.push(seed.wrapping_add(i as u8));
    }
    v
}

fn peer(seed: u8) -> PeerId {
    PeerId::from_bytes(id_bytes(seed)).expect("32 bytes")
}

fn addr(seed: u8) -> PeerAddr {
    PeerAddr {
        node_id: peer(seed),
        hints: vec!["198.51.100.7:7777".to_string()],
    }
}

fn room(seed: u8) -> RoomId {
    RoomId::from_bytes(id_bytes(seed)).expect("32 bytes")
}

#[test]
fn create_room_seeds_exactly_the_local_address() {
    let local = addr(10);
    let (ticket, session) = create_room(&local);
    assert_eq!(ticket.nodes.len(), 1);
    assert!(ticket.nodes[0].node_id.same_as(&local.node_id));
    assert_eq!(ticket.nodes[0].hints, local.hints);
    assert!(session.room_id.same_as(&ticket.topic));
    assert_eq!(session.peer_names.len(), 0);
    assert_eq!(ticket.topic.to_hex().len(), 64);
}

#[test]
fn join_room_rejects_a_ticket_without_seeds() {
    let ticket = gossip_chat::ticket::Ticket {
        topic: room(1),
        nodes: vec![],
    };
    assert_eq!(join_room(&ticket).unwrap_err(), ChatError::EmptyTicket);
}

#[test]
fn join_room_contacts_are_the_seed_ids() {
    let ticket = gossip_chat::ticket::Ticket {
        topic: room(1),
        nodes: vec![addr(4), addr(5)],
    };
    let (session, contacts) = join_room(&ticket).expect("two seeds");
    assert!(session.room_id.same_as(&ticket.topic));
    assert_eq!(contacts.len(), 2);
    assert!(contacts[0].same_as(&peer(4)));
    assert!(contacts[1].same_as(&peer(5)));
}

#[test]
fn empty_input_selects_creating() {
    match plan_create_or_join(&addr(10), "").expect("create path") {
        Plan::Create { ticket, session } => {
            assert_eq!(ticket.nodes.len(), 1);
            assert!(session.room_id.same_as(&ticket.topic));
        }
        Plan::Join { .. } => panic!("an empty ticket input must create"),
    }
}

#[test]
fn malformed_input_aborts_the_join() {
    assert_eq!(
        plan_create_or_join(&addr(10), "zz").unwrap_err(),
        ChatError::MalformedTicket
    );
}

#[test]
fn registry_refuses_duplicate_keys() {
    let mut reg = Registry::new();
    let key = "quiet:lively:owl".to_string();
    reg.insert(key.clone(), TopicSession::new(room(1)))
        .expect("first insert");
    let err = reg
        .insert(key.clone(), TopicSession::new(room(2)))
        .unwrap_err();
    assert_eq!(err, ChatError::DuplicateKey);
    // the existing entry is unchanged: its room is still the first one
    assert!(reg.contains(&key));
    assert_eq!(reg.sessions.len(), 1);
    assert!(reg.sessions[0].1.room_id.same_as(&room(1)));
}

#[test]
fn set_active_refuses_unknown_keys() {
    let mut reg = Registry::new();
    assert_eq!(
        reg.set_active(&"nobody".to_string()).unwrap_err(),
        ChatError::UnknownKey
    );
}

#[test]
fn send_without_a_session_fails_and_broadcasts_nothing() {
    let reg = Registry::new();
    let err = reg
        .prepare_send(&peer(10), "hello".to_string())
        .unwrap_err();
    assert_eq!(err, ChatError::NoActiveSession);
}

#[test]
fn send_addresses_the_active_session() {
    let mut reg = Registry::new();
    reg.activate("room:a".to_string(), TopicSession::new(room(1)))
        .expect("activate a");
    reg.activate("room:b".to_string(), TopicSession::new(room(2)))
        .expect("activate b");
    let (key, bytes) = reg
        .prepare_send(&peer(10), "to b".to_string())
        .expect("active session set");
    assert_eq!(key, "room:b");
    match Message::from_bytes(&bytes).expect("well-formed bytes") {
        Message::Chat { from, text } => {
            assert!(from.same_as(&peer(10)));
            assert_eq!(text, "to b");
        }
        Message::AboutMe { .. } => panic!("a send is a chat message"),
    }
}

#[test]
fn select_topic_switches_the_active_session() {
    let mut reg = Registry::new();
    reg.activate("room:a".to_string(), TopicSession::new(room(1)))
        .expect("activate a");
    reg.activate("room:b".to_string(), TopicSession::new(room(2)))
        .expect("activate b");
    reg.set_active(&"room:a".to_string()).expect("known key");
    let (key, _) = reg
        .prepare_send(&peer(10), "back to a".to_string())
        .expect("active session set");
    assert_eq!(key, "room:a");
}

#[test]
fn registry_routes_events_by_key() {
    let mut reg = Registry::new();
    reg.activate("room:a".to_string(), TopicSession::new(room(1)))
        .expect("activate a");
    let announce = Message::AboutMe {
        from: peer(3),
        name: "bob".to_string(),
    }
    .to_vec();
    match reg
        .apply_event(&"room:a".to_string(), InboundEvent::Payload { bytes: announce })
        .expect("known key")
    {
        Outcome::PeerRenamed { name, .. } => assert_eq!(name, "bob"),
        other => panic!("expected a rename, got {:?}", other),
    }
    assert_eq!(
        reg.apply_event(&"missing".to_string(), InboundEvent::Other)
            .unwrap_err(),
        ChatError::UnknownKey
    );
}

#[test]
fn pick_room_key_prefers_the_drawn_name() {
    let r = room(1);
    assert_eq!(
        pick_room_key(Some("lively:owl".to_string()), &r),
        "lively:owl"
    );
    assert_eq!(pick_room_key(None, &r), r.to_hex());
}

#[test]
fn room_key_for_each_path() {
    // joined rooms key by the room's canonical form, stable across joins
    let (ticket, _session) = create_room(&addr(10));
    let token = ticket.encode();
    let plan = plan_create_or_join(&addr(20), token.as_str()).expect("join path");
    assert_eq!(room_key_for(&plan), ticket.topic.to_hex());
    let again = plan_create_or_join(&addr(20), token.as_str()).expect("join path");
    assert_eq!(room_key_for(&again), room_key_for(&plan));
    // created rooms get a freshly generated, nonempty key
    let plan = plan_create_or_join(&addr(10), "").expect("create path");
    assert!(!room_key_for(&plan).is_empty());
}

#[test]
fn fresh_room_key_is_nonempty() {
    assert!(!fresh_room_key(&room(3)).is_empty());
}

#[test]
fn fresh_room_key_can_register() {
    let mut reg = Registry::new();
    let key = fresh_room_key(&room(1));
    assert!(!key.is_empty());
    reg.activate(key.clone(), TopicSession::new(room(1)))
        .expect("fresh key registers");
    assert!(reg.contains(&key));
}

#[test]
fn two_peers_meet_in_one_room() {
    // user A creates a room with an empty ticket input and shares the token
    let alice_addr = addr(10);
    let (alice_ticket, mut alice_session) = match plan_create_or_join(&alice_addr, "")
        .expect("create path")
    {
        Plan::Create { ticket, session } => (ticket, session),
        Plan::Join { .. } => panic!("an empty ticket input must create"),
    };
    let token = alice_ticket.encode();

    // user B joins with the token: same room, A's address as contact
    let bob_addr = addr(20);
    let (bob_session, contacts) = match plan_create_or_join(&bob_addr, token.as_str())
        .expect("join path")
    {
        Plan::Join {
            session, contacts, ..
        } => (session, contacts),
        Plan::Create { .. } => panic!("a non-empty ticket input must join"),
    };
    assert!(bob_session.room_id.same_as(&alice_session.room_id));
    assert_eq!(contacts.len(), 1);
    assert!(contacts[0].same_as(&alice_addr.node_id));

    // B announces itself before chatting; A's loop sees both payloads
    let announce = initial_announcement(&bob_addr.node_id, &"bob".to_string());
    let chat = Message::Chat {
        from: peer(20),
        text: "hello".to_string(),
    }
    .to_vec();
    alice_session.handle_event(InboundEvent::Payload { bytes: announce });
    match alice_session.handle_event(InboundEvent::Payload { bytes: chat }) {
        Outcome::MessageReceived { sender, text } => {
            assert_eq!(sender, "bob");
            assert_eq!(text, "hello");
        }
        other => panic!("expected a chat line, got {:?}", other),
    }
}

#[test]
fn repeat_join_of_the_same_ticket_is_a_duplicate_key() {
    let (ticket, _session) = create_room(&addr(10));
    let token = ticket.encode();
    let mut reg = Registry::new();
    for round in 0..2 {
        match plan_create_or_join(&addr(20), token.as_str()).expect("join path") {
            Plan::Join { ticket, session, .. } => {
                let key = ticket.topic.to_hex();
                let result = reg.activate(key, session);
                if round == 0 {
                    result.expect("first join registers");
                } else {
                    assert_eq!(result.unwrap_err(), ChatError::DuplicateKey);
                }
            }
            Plan::Create { .. } => panic!("a non-empty ticket input must join"),
        }
    }
}

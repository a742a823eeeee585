//! The inbound event loop logic: name learning, sender resolution, and
//! containment of malformed payloads.

use gossip_chat::message::Message;
use gossip_chat::peer::PeerId;
use gossip_chat::session::{InboundEvent, Outcome, TopicSession};
use gossip_chat::ticket::RoomId;

fn id_bytes(seed: u8) -> Vec<u8> {
    let mut v = Vec::new();
    for i in 0..32u32 {
        v.push(seed.wrapping_add(i as u8));
    }
    v
}

fn peer(seed: u8) -> PeerId {
    PeerId::from_bytes(id_bytes(seed)).expect("32 bytes")
}

fn session() -> TopicSession {
    TopicSession::new(RoomId::from_bytes(id_bytes(9)).expect("32 bytes"))
}

fn about_me(seed: u8, name: &str) -> InboundEvent {
    InboundEvent::Payload {
        bytes: Message::AboutMe {
            from: peer(seed),
            name: name.to_string(),
        }
        .to_vec(),
    }
}

fn chat(seed: u8, text: &str) -> InboundEvent {
    InboundEvent::Payload {
        bytes: Message::Chat {
            from: peer(seed),
            text: text.to_string(),
        }
        .to_vec(),
    }
}

#[test]
fn about_me_then_chat_resolves_name() {
    let mut s = session();
    match s.handle_event(about_me(3, "bob")) {
        Outcome::PeerRenamed { peer: p, name } => {
            assert!(p.same_as(&peer(3)));
            assert_eq!(name, "bob");
        }
        other => panic!("expected a rename, got {:?}", other),
    }
    match s.handle_event(chat(3, "hello")) {
        Outcome::MessageReceived { sender, text } => {
            assert_eq!(sender, "bob");
            assert_eq!(text, "hello");
        }
        other => panic!("expected a chat line, got {:?}", other),
    }
}

#[test]
fn chat_before_about_me_falls_back_to_short_id() {
    let mut s = session();
    match s.handle_event(chat(3, "early")) {
        Outcome::MessageReceived { sender, text } => {
            assert_eq!(sender, peer(3).short_name());
            assert_eq!(text, "early");
        }
        other => panic!("expected a chat line, got {:?}", other),
    }
}

#[test]
fn later_about_me_updates_the_name() {
    let mut s = session();
    s.handle_event(about_me(3, "bob"));
    s.handle_event(about_me(3, "robert"));
    match s.handle_event(chat(3, "hi")) {
        Outcome::MessageReceived { sender, .. } => assert_eq!(sender, "robert"),
        other => panic!("expected a chat line, got {:?}", other),
    }
}

#[test]
fn malformed_payload_is_skipped_and_loop_goes_on() {
    let mut s = session();
    s.handle_event(about_me(3, "bob"));
    match s.handle_event(InboundEvent::Payload {
        bytes: vec![0xba, 0xad, 0xf0, 0x0d],
    }) {
        Outcome::Skipped => {}
        other => panic!("expected a skip, got {:?}", other),
    }
    // the next payload is still processed, with the earlier name intact
    match s.handle_event(chat(3, "still here")) {
        Outcome::MessageReceived { sender, text } => {
            assert_eq!(sender, "bob");
            assert_eq!(text, "still here");
        }
        other => panic!("expected a chat line, got {:?}", other),
    }
}

#[test]
fn knows_name_tracks_announcements() {
    let mut s = session();
    assert!(!s.knows_name(&peer(3)));
    s.handle_event(about_me(3, "bob"));
    assert!(s.knows_name(&peer(3)));
    assert!(!s.knows_name(&peer(4)));
}

#[test]
fn membership_events_are_ignored() {
    let mut s = session();
    match s.handle_event(InboundEvent::Other) {
        Outcome::Ignored => {}
        other => panic!("expected to ignore it, got {:?}", other),
    }
}

#[test]
fn names_are_kept_per_peer() {
    let mut s = session();
    s.handle_event(about_me(1, "alice"));
    s.handle_event(about_me(2, "bob"));
    match s.handle_event(chat(1, "one")) {
        Outcome::MessageReceived { sender, .. } => assert_eq!(sender, "alice"),
        other => panic!("expected a chat line, got {:?}", other),
    }
    match s.handle_event(chat(2, "two")) {
        Outcome::MessageReceived { sender, .. } => assert_eq!(sender, "bob"),
        other => panic!("expected a chat line, got {:?}", other),
    }
}

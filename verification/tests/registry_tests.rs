//! The registry's active-session bookkeeping and the error taxonomy's
//! user-visible renderings.

use gossip_chat::errors::ChatError;
use gossip_chat::registry::Registry;
use gossip_chat::session::TopicSession;
use gossip_chat::ticket::RoomId;

fn room(seed: u8) -> RoomId {
    let mut v = Vec::new();
    for i in 0..32u32 {
        v.push(seed.wrapping_add(i as u8));
    }
    RoomId::from_bytes(v).expect("32 bytes")
}

#[test]
fn active_session_follows_activation() {
    let mut reg = Registry::new();
    assert_eq!(
        reg.active_session().unwrap_err(),
        ChatError::NoActiveSession
    );
    reg.activate("first".to_string(), TopicSession::new(room(1)))
        .expect("activate");
    let s = reg.active_session().expect("one active session");
    assert!(s.room_id.same_as(&room(1)));
    reg.activate("second".to_string(), TopicSession::new(room(2)))
        .expect("activate");
    let s = reg.active_session().expect("one active session");
    assert!(s.room_id.same_as(&room(2)));
}

#[test]
fn contains_tracks_insertions() {
    let mut reg = Registry::new();
    let key = "a:room".to_string();
    assert!(!reg.contains(&key));
    reg.insert(key.clone(), TopicSession::new(room(1)))
        .expect("insert");
    assert!(reg.contains(&key));
    // a plain insert does not change the active session
    assert_eq!(
        reg.active_session().unwrap_err(),
        ChatError::NoActiveSession
    );
}

#[test]
fn every_failure_has_a_short_description() {
    let all = [
        ChatError::MalformedTicket,
        ChatError::EmptyTicket,
        ChatError::MalformedMessage,
        ChatError::DuplicateKey,
        ChatError::UnknownKey,
        ChatError::NoActiveSession,
        ChatError::TransportFailure,
    ];
    for (i, a) in all.iter().enumerate() {
        assert!(!a.describe().is_empty());
        for (j, b) in all.iter().enumerate() {
            if i != j {
                assert_ne!(a.describe(), b.describe());
            }
        }
    }
    assert_eq!(ChatError::NoActiveSession.describe(), "no active topic");
    assert_eq!(ChatError::TransportFailure.describe(), "transport failure");
}

//! Round trips and failure modes of the ticket and message codecs.

use gossip_chat::errors::ChatError;
use gossip_chat::message::Message;
use gossip_chat::peer::{PeerAddr, PeerId};
use gossip_chat::ticket::{RoomId, Ticket};

fn id_bytes(seed: u8) -> Vec<u8> {
    let mut v = Vec::new();
    for i in 0..32u32 {
        v.push(seed.wrapping_add(i as u8));
    }
    v
}

fn peer(seed: u8) -> PeerId {
    PeerId::from_bytes(id_bytes(seed)).expect("32 bytes")
}

fn addr(seed: u8, hints: Vec<&str>) -> PeerAddr {
    PeerAddr {
        node_id: peer(seed),
        hints: hints.into_iter().map(|h| h.to_string()).collect(),
    }
}

fn room(seed: u8) -> RoomId {
    RoomId::from_bytes(id_bytes(seed)).expect("32 bytes")
}

fn assert_addr_eq(a: &PeerAddr, b: &PeerAddr) {
    assert!(a.node_id.same_as(&b.node_id));
    assert_eq!(a.hints, b.hints);
}

#[test]
fn ticket_round_trip_single_seed() {
    let t = Ticket {
        topic: room(7),
        nodes: vec![addr(1, vec!["192.0.2.1:4433", "relay.example"])],
    };
    let token = t.encode();
    let back = Ticket::decode(token.as_str()).expect("round trip");
    assert!(back.topic.same_as(&t.topic));
    assert_eq!(back.nodes.len(), 1);
    assert_addr_eq(&back.nodes[0], &t.nodes[0]);
}

#[test]
fn ticket_round_trip_many_seeds_and_unicode_hints() {
    let t = Ticket {
        topic: room(200),
        nodes: vec![
            addr(1, vec![]),
            addr(2, vec!["wss://relay.example/路径", "10.0.0.2:1"]),
            addr(3, vec!["hint"]),
        ],
    };
    let token = t.encode();
    let back = Ticket::decode(token.as_str()).expect("round trip");
    assert!(back.topic.same_as(&t.topic));
    assert_eq!(back.nodes.len(), 3);
    for i in 0..3 {
        assert_addr_eq(&back.nodes[i], &t.nodes[i]);
    }
}

#[test]
fn ticket_token_is_clean_text() {
    let t = Ticket {
        topic: room(9),
        nodes: vec![addr(4, vec!["a b\tc\n"])],
    };
    let token = t.encode();
    assert!(!token.is_empty());
    assert!(token
        .chars()
        .all(|c| c.is_ascii_hexdigit() && !c.is_whitespace() && !c.is_control()));
}

#[test]
fn ticket_with_zero_seeds_decodes_to_empty_ticket_error() {
    let t = Ticket {
        topic: room(7),
        nodes: vec![],
    };
    let token = t.encode();
    assert_eq!(
        Ticket::decode(token.as_str()).unwrap_err(),
        ChatError::EmptyTicket
    );
}

#[test]
fn ticket_decode_rejects_garbage() {
    assert_eq!(
        Ticket::decode("not hex!").unwrap_err(),
        ChatError::MalformedTicket
    );
    // odd length
    assert_eq!(
        Ticket::decode("abc").unwrap_err(),
        ChatError::MalformedTicket
    );
    // valid hex, truncated body
    assert_eq!(
        Ticket::decode("deadbeef").unwrap_err(),
        ChatError::MalformedTicket
    );
    assert_eq!(Ticket::decode("").unwrap_err(), ChatError::MalformedTicket);
}

#[test]
fn ticket_decode_rejects_trailing_bytes() {
    let t = Ticket {
        topic: room(7),
        nodes: vec![addr(1, vec![])],
    };
    let mut token = t.encode();
    token.push_str("00");
    assert_eq!(
        Ticket::decode(token.as_str()).unwrap_err(),
        ChatError::MalformedTicket
    );
}

#[test]
fn message_round_trip_about_me() {
    let m = Message::AboutMe {
        from: peer(5),
        name: "alice".to_string(),
    };
    let bytes = m.to_vec();
    match Message::from_bytes(&bytes).expect("round trip") {
        Message::AboutMe { from, name } => {
            assert!(from.same_as(&peer(5)));
            assert_eq!(name, "alice");
        }
        Message::Chat { .. } => panic!("wrong variant"),
    }
}

#[test]
fn message_round_trip_chat_with_unicode() {
    let m = Message::Chat {
        from: peer(77),
        text: "héllo ☺ world".to_string(),
    };
    let bytes = m.to_vec();
    match Message::from_bytes(&bytes).expect("round trip") {
        Message::Chat { from, text } => {
            assert!(from.same_as(&peer(77)));
            assert_eq!(text, "héllo ☺ world");
        }
        Message::AboutMe { .. } => panic!("wrong variant"),
    }
}

#[test]
fn message_from_garbage_is_malformed() {
    assert_eq!(
        Message::from_bytes(&[]).unwrap_err(),
        ChatError::MalformedMessage
    );
    assert_eq!(
        Message::from_bytes(&[0u8; 10]).unwrap_err(),
        ChatError::MalformedMessage
    );
    // unknown tag in front of an otherwise plausible body
    let mut bytes = Message::AboutMe {
        from: peer(1),
        name: "x".to_string(),
    }
    .to_vec();
    bytes[0] = 9;
    assert_eq!(
        Message::from_bytes(&bytes).unwrap_err(),
        ChatError::MalformedMessage
    );
    // trailing byte
    let mut bytes = Message::Chat {
        from: peer(1),
        text: "x".to_string(),
    }
    .to_vec();
    bytes.push(0);
    assert_eq!(
        Message::from_bytes(&bytes).unwrap_err(),
        ChatError::MalformedMessage
    );
    // invalid UTF-8 in the framed text
    let mut bytes = Message::Chat {
        from: peer(1),
        text: "ab".to_string(),
    }
    .to_vec();
    let n = bytes.len();
    bytes[n - 1] = 0xff;
    bytes[n - 2] = 0xfe;
    assert_eq!(
        Message::from_bytes(&bytes).unwrap_err(),
        ChatError::MalformedMessage
    );
}

#[test]
fn peer_id_renderings() {
    let mut bytes = vec![0u8; 32];
    bytes[0] = 0xde;
    bytes[1] = 0xad;
    bytes[2] = 0xbe;
    bytes[3] = 0xef;
    bytes[4] = 0x01;
    bytes[5] = 0x99;
    let p = PeerId::from_bytes(bytes).expect("32 bytes");
    assert_eq!(p.short_name(), "deadbeef01");
    assert!(p.to_hex().starts_with("deadbeef0199"));
    assert_eq!(p.to_hex().len(), 64);
}

#[test]
fn room_id_canonical_form() {
    let r = room(0);
    let hex = r.to_hex();
    assert_eq!(hex.len(), 64);
    assert_eq!(&hex[0..8], "00010203");
}

//! The two wire message variants exchanged inside a topic, and their binary
//! encoding.
//!
//! A message is one tag byte (`0` for an identity announcement, `1` for a
//! chat line), the sender's identifier, and the length-framed UTF-8 text.

use vstd::prelude::*;
use vstd::slice::slice_to_vec;
use vstd::utf8::{encode_utf8, encode_utf8_decode_utf8};

use crate::errors::ChatError;
use crate::peer::{PeerId, PEER_ID_LEN};
use crate::wire::{
    lemma_prefix_bytes, lemma_split_prefix, lemma_u64_bytes_injective, push_string, read_bytes,
    read_string, str_framed, tail_from, u64_bytes,
};

verus! {

/// A message exchanged inside a topic: an identity announcement binding the
/// sender to a display name, or a chat line.
#[derive(Debug)]
pub enum Message {
    /// Announces or updates the human-readable name of `from`.
    AboutMe { from: PeerId, name: String },
    /// A chat line authored by `from`.
    Chat { from: PeerId, text: String },
}

/// What a message is, mathematically.
pub ghost enum MessageView {
    AboutMe { from: Seq<u8>, name: Seq<char> },
    Chat { from: Seq<u8>, text: Seq<char> },
}

impl View for Message {
    type V = MessageView;

    open spec fn view(&self) -> MessageView {
        match self {
            Message::AboutMe { from, name } => MessageView::AboutMe {
                from: from@,
                name: name@,
            },
            Message::Chat { from, text } => MessageView::Chat { from: from@, text: text@ },
        }
    }
}

impl MessageView {
    /// A well-formed message: a full-length sender identifier and text whose
    /// UTF-8 length fits the wire's length field.
    pub open spec fn wf(self) -> bool {
        match self {
            MessageView::AboutMe { from, name } => from.len() == PEER_ID_LEN && encode_utf8(
                name,
            ).len() <= u64::MAX,
            MessageView::Chat { from, text } => from.len() == PEER_ID_LEN && encode_utf8(
                text,
            ).len() <= u64::MAX,
        }
    }

    /// The sender of the message.
    pub open spec fn sender(self) -> Seq<u8> {
        match self {
            MessageView::AboutMe { from, .. } => from,
            MessageView::Chat { from, .. } => from,
        }
    }
}

/// The wire bytes of a message.
pub open spec fn message_bytes(m: MessageView) -> Seq<u8> {
    match m {
        MessageView::AboutMe { from, name } => seq![0u8] + from + str_framed(name),
        MessageView::Chat { from, text } => seq![1u8] + from + str_framed(text),
    }
}

impl Message {
    /// The structural part of well-formedness that constructors establish.
    pub open spec fn ids_wf(&self) -> bool {
        match self {
            Message::AboutMe { from, .. } => from.wf(),
            Message::Chat { from, .. } => from.wf(),
        }
    }

    /// Serializes the message for transport.  Total: every well-formed
    /// in-memory message has wire bytes.
    pub fn to_vec(&self) -> (r: Vec<u8>)
        requires
            self.ids_wf(),
        ensures
            r@ =~= message_bytes(self@),
            self@.wf(),
    {
        let mut out: Vec<u8> = Vec::new();
        match self {
            Message::AboutMe { from, name } => {
                out.push(0u8);
                let mut id = slice_to_vec(from.as_bytes());
                out.append(&mut id);
                push_string(&mut out, name.as_str());
                proof {
                    assert(out@ =~= message_bytes(self@));
                }
            },
            Message::Chat { from, text } => {
                out.push(1u8);
                let mut id = slice_to_vec(from.as_bytes());
                out.append(&mut id);
                push_string(&mut out, text.as_str());
                proof {
                    assert(out@ =~= message_bytes(self@));
                }
            },
        }
        out
    }

    /// Deserializes a payload received from a peer.
    ///
    /// Fails with `MalformedMessage` exactly when the bytes are not the wire
    /// form of any well-formed message — truncated payloads and unknown tags
    /// included — and otherwise returns that one message.
    pub fn from_bytes(bytes: &[u8]) -> (r: Result<Message, ChatError>)
        ensures
            r matches Ok(m) ==> m.ids_wf() && m@.wf() && bytes@ =~= message_bytes(m@),
            forall|mv: MessageView| #![trigger message_bytes(mv)]
                mv.wf() && bytes@ == message_bytes(mv) ==> (r matches Ok(m) && m@ == mv),
            r matches Err(e) ==> e == ChatError::MalformedMessage,
    {
        proof {
            assert forall|mv: MessageView|
                mv.wf() && bytes@ == #[trigger] message_bytes(mv) implies bytes@.len() >= 41
                && bytes@[0] == tag_of(mv) && bytes@.subrange(1, 33) =~= mv.sender()
                && str_framed(text_of(mv)).is_prefix_of(tail_from(bytes@, 33)) && bytes@.len()
                == 41 + encode_utf8(text_of(mv)).len() by {
                assert(message_bytes(mv) =~= seq![tag_of(mv)] + (mv.sender() + str_framed(
                    text_of(mv),
                )));
                assert(message_bytes(mv).is_prefix_of(tail_from(bytes@, 0))) by {
                    assert(tail_from(bytes@, 0) =~= bytes@);
                }
                lemma_split_prefix(
                    bytes@,
                    0,
                    seq![tag_of(mv)],
                    mv.sender() + str_framed(text_of(mv)),
                );
                lemma_split_prefix(bytes@, 1, mv.sender(), str_framed(text_of(mv)));
                lemma_prefix_bytes(bytes@, 33, str_framed(text_of(mv)));
                assert(bytes@.subrange(0, 1)[0] == bytes@[0]);
            };
        }
        if bytes.len() < 41 {
            return Err(ChatError::MalformedMessage);
        }
        let tag = *slice_first(bytes);
        if tag > 1 {
            return Err(ChatError::MalformedMessage);
        }
        let (id_bytes, p1) = match read_bytes(bytes, 1, PEER_ID_LEN) {
            Some(x) => x,
            None => {
                return Err(ChatError::MalformedMessage);
            },
        };
        let from = PeerId::new(id_bytes);
        let (text, p2) = match read_string(bytes, p1) {
            Some(x) => x,
            None => {
                return Err(ChatError::MalformedMessage);
            },
        };
        if p2 != bytes.len() {
            return Err(ChatError::MalformedMessage);
        }
        let m = if tag == 0 {
            Message::AboutMe { from, name: text }
        } else {
            Message::Chat { from, text }
        };
        proof {
            assert(tag_of(m@) == tag && mv_sender_len(m@));
            assert(bytes@ =~= message_bytes(m@)) by {
                assert(bytes@ =~= bytes@.subrange(0, 1) + bytes@.subrange(1, 33) + bytes@.subrange(
                    33,
                    bytes@.len() as int,
                ));
                assert(bytes@.subrange(0, 1) =~= seq![tag]);
                assert(bytes@.subrange(33, bytes@.len() as int) =~= str_framed(text_of(m@)));
                assert(message_bytes(m@) =~= seq![tag] + bytes@.subrange(1, 33) + str_framed(
                    text_of(m@),
                ));
            };
            assert forall|mv: MessageView|
                mv.wf() && bytes@ == #[trigger] message_bytes(mv) implies m@ == mv by {
                assert(bytes@[0] == tag_of(mv));
                assert(mv.sender() =~= bytes@.subrange(1, 33));
                assert(str_framed(text_of(mv)).is_prefix_of(tail_from(bytes@, 33)));
                assert(text_of(mv) == text_of(m@));
                match mv {
                    MessageView::AboutMe { .. } => {
                        assert(tag_of(mv) == 0);
                    },
                    MessageView::Chat { .. } => {
                        assert(tag_of(mv) == 1);
                    },
                }
            };
        }
        Ok(m)
    }
}

/// The wire encoding loses nothing: no two well-formed messages share their
/// wire bytes.  Together with `from_bytes`'s contract this is the round trip:
/// deserializing the bytes of a message can only return that message.
pub proof fn lemma_message_bytes_injective(a: MessageView, b: MessageView)
    requires
        a.wf(),
        b.wf(),
        message_bytes(a) == message_bytes(b),
    ensures
        a == b,
{
    let s = message_bytes(a);
    lemma_message_bytes_shape(a, s);
    lemma_message_bytes_shape(b, s);
    lemma_u64_bytes_injective(
        encode_utf8(text_of(a)).len() as u64,
        encode_utf8(text_of(b)).len() as u64,
    );
    assert(encode_utf8(text_of(a)) =~= encode_utf8(text_of(b)));
    encode_utf8_decode_utf8(text_of(a));
    encode_utf8_decode_utf8(text_of(b));
    assert(a.sender() =~= b.sender());
    match a {
        MessageView::AboutMe { .. } => {
            assert(tag_of(b) == 0);
        },
        MessageView::Chat { .. } => {
            assert(tag_of(b) == 1);
        },
    }
}

/// How the wire bytes of `m` decompose: the tag, the sender, the framed text.
proof fn lemma_message_bytes_shape(m: MessageView, s: Seq<u8>)
    requires
        m.wf(),
        s == message_bytes(m),
    ensures
        s.len() == 41 + encode_utf8(text_of(m)).len(),
        s[0] == tag_of(m),
        m.sender() =~= s.subrange(1, 33),
        u64_bytes(encode_utf8(text_of(m)).len() as u64) =~= s.subrange(33, 41),
        encode_utf8(text_of(m)) =~= s.subrange(41, s.len() as int),
{
    assert(s =~= seq![tag_of(m)] + (m.sender() + (u64_bytes(
        encode_utf8(text_of(m)).len() as u64,
    ) + encode_utf8(text_of(m)))));
    assert(s.is_prefix_of(tail_from(s, 0))) by {
        assert(tail_from(s, 0) =~= s);
    }
    lemma_split_prefix(
        s,
        0,
        seq![tag_of(m)],
        m.sender() + (u64_bytes(encode_utf8(text_of(m)).len() as u64) + encode_utf8(text_of(m))),
    );
    lemma_split_prefix(
        s,
        1,
        m.sender(),
        u64_bytes(encode_utf8(text_of(m)).len() as u64) + encode_utf8(text_of(m)),
    );
    lemma_split_prefix(
        s,
        33,
        u64_bytes(encode_utf8(text_of(m)).len() as u64),
        encode_utf8(text_of(m)),
    );
    lemma_prefix_bytes(s, 41, encode_utf8(text_of(m)));
    assert(s.subrange(0, 1)[0] == s[0]);
}

/// The tag byte of a message.
pub open spec fn tag_of(m: MessageView) -> u8 {
    match m {
        MessageView::AboutMe { .. } => 0,
        MessageView::Chat { .. } => 1,
    }
}

/// The text carried by a message: the announced name or the chat line.
pub open spec fn text_of(m: MessageView) -> Seq<char> {
    match m {
        MessageView::AboutMe { name, .. } => name,
        MessageView::Chat { text, .. } => text,
    }
}

/// Whether the sender field has its fixed length.
spec fn mv_sender_len(m: MessageView) -> bool {
    m.sender().len() == PEER_ID_LEN
}

/// The first byte of a nonempty slice.
fn slice_first(b: &[u8]) -> (r: &u8)
    requires
        b@.len() > 0,
    ensures
        *r == b@[0],
{
    vstd::slice::slice_index_get(b, 0)
}

} // verus!

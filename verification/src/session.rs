//! One joined room: its identifier and the display names its inbound event
//! loop has learned from identity announcements.

use vstd::prelude::*;

use crate::hexfmt::hex_of;
use crate::message::{message_bytes, Message, MessageView};
use crate::peer::PeerId;
use crate::ticket::RoomId;

verus! {

/// The key of the name entry at index `i`.
pub open spec fn key_at(entries: Seq<(PeerId, String)>, i: int) -> Seq<u8> {
    entries[i].0@
}

/// No two entries name the same peer.
pub open spec fn keys_unique(entries: Seq<(PeerId, String)>) -> bool {
    forall|i: int, j: int| 0 <= i < j < entries.len() ==> key_at(entries, i) != key_at(entries, j)
}

/// The mapping that a list of name entries denotes.
pub open spec fn names_map(entries: Seq<(PeerId, String)>) -> Map<Seq<u8>, Seq<char>>
    decreases entries.len(),
{
    if entries.len() == 0 {
        Map::empty()
    } else {
        names_map(entries.drop_last()).insert(entries.last().0@, entries.last().1@)
    }
}

/// Every entry is present in the denoted mapping; with unique keys it holds
/// its own value.
pub proof fn lemma_names_map_index(entries: Seq<(PeerId, String)>, i: int)
    requires
        keys_unique(entries),
        0 <= i < entries.len(),
    ensures
        names_map(entries).contains_key(key_at(entries, i)),
        names_map(entries)[key_at(entries, i)] == entries[i].1@,
    decreases entries.len(),
{
    if i < entries.len() - 1 {
        assert(keys_unique(entries.drop_last())) by {
            assert forall|a: int, b: int|
                0 <= a < b < entries.drop_last().len() implies key_at(entries.drop_last(), a)
                != key_at(entries.drop_last(), b) by {
                assert(key_at(entries, a) != key_at(entries, b));
            };
        }
        lemma_names_map_index(entries.drop_last(), i);
        assert(key_at(entries, i) != key_at(entries, entries.len() - 1));
        assert(key_at(entries.drop_last(), i) == key_at(entries, i));
    }
}

/// Every key of the denoted mapping comes from some entry.
pub proof fn lemma_names_map_domain(entries: Seq<(PeerId, String)>, k: Seq<u8>)
    requires
        names_map(entries).contains_key(k),
    ensures
        exists|i: int| 0 <= i < entries.len() && key_at(entries, i) == k,
    decreases entries.len(),
{
    if entries.len() > 0 {
        if k == entries.last().0@ {
            assert(key_at(entries, entries.len() - 1) == k);
        } else {
            lemma_names_map_domain(entries.drop_last(), k);
            let i = choose|i: int|
                0 <= i < entries.drop_last().len() && key_at(entries.drop_last(), i) == k;
            assert(key_at(entries, i) == k);
        }
    }
}

/// Removing the entry at `i` removes exactly its key from the mapping.
pub proof fn lemma_names_map_remove(entries: Seq<(PeerId, String)>, i: int)
    requires
        keys_unique(entries),
        0 <= i < entries.len(),
    ensures
        names_map(entries.remove(i)) =~= names_map(entries).remove(key_at(entries, i)),
    decreases entries.len(),
{
    let k = key_at(entries, i);
    if i == entries.len() - 1 {
        assert(entries.remove(i) =~= entries.drop_last());
        assert(!names_map(entries.drop_last()).contains_key(k)) by {
            if names_map(entries.drop_last()).contains_key(k) {
                lemma_names_map_domain(entries.drop_last(), k);
                let j = choose|j: int|
                    0 <= j < entries.drop_last().len() && key_at(entries.drop_last(), j) == k;
                assert(key_at(entries, j) == k);
                assert(key_at(entries, j) != key_at(entries, i));
            }
        }
        assert(names_map(entries.drop_last()) =~= names_map(entries.drop_last()).insert(
            entries.last().0@,
            entries.last().1@,
        ).remove(k));
    } else {
        assert(keys_unique(entries.drop_last())) by {
            assert forall|a: int, b: int|
                0 <= a < b < entries.drop_last().len() implies key_at(entries.drop_last(), a)
                != key_at(entries.drop_last(), b) by {
                assert(key_at(entries, a) != key_at(entries, b));
            };
        }
        lemma_names_map_remove(entries.drop_last(), i);
        assert(entries.remove(i).drop_last() =~= entries.drop_last().remove(i));
        assert(entries.remove(i).last() == entries.last());
        assert(key_at(entries.drop_last(), i) == k);
        assert(k != entries.last().0@) by {
            assert(key_at(entries, i) != key_at(entries, entries.len() - 1));
        }
        assert(names_map(entries.remove(i)) == names_map(entries.drop_last().remove(i)).insert(
            entries.last().0@,
            entries.last().1@,
        ));
        assert(names_map(entries.drop_last()).remove(k).insert(
            entries.last().0@,
            entries.last().1@,
        ) =~= names_map(entries.drop_last()).insert(
            entries.last().0@,
            entries.last().1@,
        ).remove(k));
    }
}

/// What a session is, mathematically: the room it belongs to and the learned
/// display names.
pub ghost struct SessionView {
    pub room: Seq<u8>,
    pub names: Map<Seq<u8>, Seq<char>>,
}

/// One joined room.  The name table starts empty and grows monotonically as
/// identity announcements arrive; it is never evicted for the lifetime of the
/// session.
#[derive(Debug)]
pub struct TopicSession {
    pub room_id: RoomId,
    pub peer_names: Vec<(PeerId, String)>,
}

impl View for TopicSession {
    type V = SessionView;

    open spec fn view(&self) -> SessionView {
        SessionView { room: self.room_id@, names: names_map(self.peer_names@) }
    }
}

/// What processing one inbound stream item produced for the presentation
/// layer.
#[derive(Debug)]
pub enum Outcome {
    /// The item was not a delivered payload; nothing to do.
    Ignored,
    /// An identity announcement was applied to the name table.
    PeerRenamed { peer: PeerId, name: String },
    /// A chat line, with the sender resolved to a display name.
    MessageReceived { sender: String, text: String },
    /// The payload was malformed; it was skipped and the session is
    /// unchanged.
    Skipped,
}

/// One item of a topic's inbound stream, as handed over by the transport.
#[derive(Debug)]
pub enum InboundEvent {
    /// A payload delivered on the topic.
    Payload { bytes: Vec<u8> },
    /// A membership or liveness event; not meaningful to this layer.
    Other,
}

impl TopicSession {
    /// A well-formed session: a full-length room identifier, unique name
    /// keys, and full-length peer identifiers.
    pub open spec fn wf(&self) -> bool {
        &&& self.room_id.wf()
        &&& keys_unique(self.peer_names@)
        &&& forall|i: int|
            0 <= i < self.peer_names@.len() ==> (#[trigger] self.peer_names@[i].0).wf()
    }

    /// A fresh session for a room, with no prior name knowledge.
    pub fn new(room_id: RoomId) -> (r: TopicSession)
        requires
            room_id.wf(),
        ensures
            r@.room == room_id@,
            r@.names == Map::<Seq<u8>, Seq<char>>::empty(),
            r.wf(),
    {
        TopicSession { room_id, peer_names: Vec::new() }
    }

    /// The index of the entry for `who`, if one exists.
    #[verifier::loop_isolation(false)]
    fn find_name(&self, who: &PeerId) -> (r: Option<usize>)
        ensures
            r matches Some(i) ==> i < self.peer_names@.len() && key_at(self.peer_names@, i as int)
                == who@,
            r is None ==> forall|i: int|
                0 <= i < self.peer_names@.len() ==> key_at(self.peer_names@, i) != who@,
    {
        let n = self.peer_names.len();
        let mut i: usize = 0;
        while i < n
            invariant
                i <= n,
                forall|j: int| 0 <= j < i ==> key_at(self.peer_names@, j) != who@,
            decreases n - i,
        {
            if entry_at(self, i).0.same_as(who) {
                return Some(i);
            }
            i += 1;
        }
        None
    }

    /// Whether the session already knows a name for `who`.
    pub fn knows_name(&self, who: &PeerId) -> (r: bool)
        requires
            self.wf(),
        ensures
            r == self@.names.contains_key(who@),
    {
        match self.find_name(who) {
            Some(i) => {
                proof {
                    lemma_names_map_index(self.peer_names@, i as int);
                }
                true
            },
            None => {
                proof {
                    if self@.names.contains_key(who@) {
                        lemma_names_map_domain(self.peer_names@, who@);
                    }
                }
                false
            },
        }
    }

    /// Records that `from` is known as `name`, inserting or updating the
    /// entry.
    pub fn update_name(&mut self, from: PeerId, name: String)
        requires
            old(self).wf(),
            from.wf(),
        ensures
            final (self).wf(),
            final (self)@.room == old(self)@.room,
            final (self)@.names =~= old(self)@.names.insert(from@, name@),
    {
        let ghost entries0 = self.peer_names@;
        match self.find_name(&from) {
            Some(i) => {
                proof {
                    lemma_names_map_remove(entries0, i as int);
                }
                let _ = self.peer_names.remove(i);
                proof {
                    let entries1 = self.peer_names@;
                    assert(keys_unique(entries1)) by {
                        assert forall|a: int, b: int|
                            0 <= a < b < entries1.len() implies key_at(entries1, a) != key_at(
                            entries1,
                            b,
                        ) by {
                            let a0 = if a < i as int {
                                a
                            } else {
                                a + 1
                            };
                            let b0 = if b < i as int {
                                b
                            } else {
                                b + 1
                            };
                            assert(key_at(entries0, a0) != key_at(entries0, b0));
                        };
                    }
                    assert forall|j: int| 0 <= j < entries1.len() implies key_at(entries1, j)
                        != from@ by {
                        let j0 = if j < i as int {
                            j
                        } else {
                            j + 1
                        };
                        assert(key_at(entries0, j0) == key_at(entries1, j));
                        assert(key_at(entries0, i as int) == from@);
                        if j0 < i as int {
                            assert(key_at(entries0, j0) != key_at(entries0, i as int));
                        } else {
                            assert(key_at(entries0, i as int) != key_at(entries0, j0));
                        }
                    }
                    assert(!names_map(entries1).contains_key(from@)) by {
                        if names_map(entries1).contains_key(from@) {
                            lemma_names_map_domain(entries1, from@);
                        }
                    }
                }
                self.push_entry(from, name);
            },
            None => {
                proof {
                    assert(!names_map(entries0).contains_key(from@)) by {
                        if names_map(entries0).contains_key(from@) {
                            lemma_names_map_domain(entries0, from@);
                        }
                    }
                }
                self.push_entry(from, name);
            },
        }
    }

    /// Appends an entry whose key is not yet present.
    fn push_entry(&mut self, from: PeerId, name: String)
        requires
            old(self).wf(),
            from.wf(),
            !names_map(old(self).peer_names@).contains_key(from@),
            forall|i: int|
                0 <= i < old(self).peer_names@.len() ==> key_at(old(self).peer_names@, i) != from@,
        ensures
            final (self).wf(),
            final (self)@.room == old(self)@.room,
            final (self)@.names =~= old(self)@.names.insert(from@, name@),
    {
        let ghost entries0 = self.peer_names@;
        let ghost fromv = from@;
        let ghost namev = name@;
        self.peer_names.push((from, name));
        proof {
            let entries1 = self.peer_names@;
            assert(entries1.drop_last() =~= entries0);
            assert(entries1.last().0@ == fromv && entries1.last().1@ == namev);
            assert(names_map(entries1) =~= names_map(entries0).insert(fromv, namev));
            assert(keys_unique(entries1)) by {
                assert forall|a: int, b: int|
                    0 <= a < b < entries1.len() implies key_at(entries1, a) != key_at(
                    entries1,
                    b,
                ) by {
                    if b < entries1.len() - 1 {
                        assert(key_at(entries0, a) != key_at(entries0, b));
                    } else {
                        assert(key_at(entries0, a) != fromv);
                    }
                };
            }
        }
    }

    /// The display name for `from`: the recorded name if an announcement has
    /// arrived, else the short deterministic rendering of the identifier.
    pub fn display_name(&self, from: &PeerId) -> (r: String)
        requires
            self.wf(),
            from.wf(),
        ensures
            self@.names.contains_key(from@) ==> r@ == self@.names[from@],
            !self@.names.contains_key(from@) ==> r@ == hex_of(from@.take(5)),
    {
        match self.find_name(from) {
            Some(i) => {
                proof {
                    lemma_names_map_index(self.peer_names@, i as int);
                }
                entry_at(self, i).1.clone()
            },
            None => {
                proof {
                    if self@.names.contains_key(from@) {
                        lemma_names_map_domain(self.peer_names@, from@);
                    }
                }
                from.short_name()
            },
        }
    }

    /// Processes one inbound stream item, in arrival order.
    ///
    /// Membership events are ignored; a payload that decodes to an identity
    /// announcement updates the name table; a chat payload resolves its
    /// sender; a malformed payload is skipped and the session is unchanged,
    /// so one bad payload never stops the loop from handling the next.
    pub fn handle_event(&mut self, event: InboundEvent) -> (r: Outcome)
        requires
            old(self).wf(),
        ensures
            final (self).wf(),
            final (self)@.room == old(self)@.room,
            // no eviction: a name, once learned, stays for the session's life
            forall|p: Seq<u8>|
                old(self)@.names.contains_key(p) ==> final (self)@.names.contains_key(p),
            event matches InboundEvent::Other ==> r == Outcome::Ignored && final (self)@.names
                == old(self)@.names,
            event matches InboundEvent::Payload { bytes } && (forall|mv: MessageView|
                mv.wf() ==> bytes@ != #[trigger] message_bytes(mv)) ==> r == Outcome::Skipped
                && final (self)@.names == old(self)@.names,
            forall|mv: MessageView| #![trigger message_bytes(mv)]
                (event matches InboundEvent::Payload { bytes } && mv.wf() && bytes@
                    == message_bytes(mv)) ==> ((mv matches MessageView::AboutMe { from, name }
                    ==> (final (self)@.names =~= old(self)@.names.insert(from, name) && (
                r matches Outcome::PeerRenamed { peer, name: n } && peer@ == from && n@ == name)))
                    && (mv matches MessageView::Chat { from, text } ==> (final (self)@.names
                    == old(self)@.names && (r matches Outcome::MessageReceived { sender, text: t }
                    && t@ == text && (old(self)@.names.contains_key(from) ==> sender@ == old(
                    self,
                )@.names[from]) && (!old(self)@.names.contains_key(from) ==> sender@ == hex_of(
                    from.take(5),
                )))))),
    {
        match event {
            InboundEvent::Other => Outcome::Ignored,
            InboundEvent::Payload { bytes } => {
                match Message::from_bytes(bytes.as_slice()) {
                    Err(_) => Outcome::Skipped,
                    Ok(m) => {
                        match m {
                            Message::AboutMe { from, name } => {
                                let peer = from.duplicate();
                                let reported = name.clone();
                                self.update_name(from, name);
                                Outcome::PeerRenamed { peer, name: reported }
                            },
                            Message::Chat { from, text } => {
                                let sender = self.display_name(&from);
                                Outcome::MessageReceived { sender, text }
                            },
                        }
                    },
                }
            },
        }
    }
}

/// The name entry of `s` at index `i`.
fn entry_at(s: &TopicSession, i: usize) -> (r: &(PeerId, String))
    requires
        i < s.peer_names@.len(),
    ensures
        r == s.peer_names@[i as int],
{
    &s.peer_names[i]
}

} // verus!

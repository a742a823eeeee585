//! The process-wide registry of joined rooms: every session keyed by a local
//! room name, plus which room is active.  All outgoing user messages address
//! the active room.

use vstd::prelude::*;

use crate::errors::ChatError;
use crate::hexfmt::hex_of;
use crate::message::{message_bytes, Message, MessageView};
use crate::peer::PeerId;
use crate::session::{InboundEvent, Outcome, SessionView, TopicSession};

verus! {

/// The key of the registry entry at index `i`.
pub open spec fn rkey_at(entries: Seq<(String, TopicSession)>, i: int) -> Seq<char> {
    entries[i].0@
}

/// No two entries share a room key.
pub open spec fn rkeys_unique(entries: Seq<(String, TopicSession)>) -> bool {
    forall|i: int, j: int|
        0 <= i < j < entries.len() ==> rkey_at(entries, i) != rkey_at(entries, j)
}

/// The mapping that the registry's entry list denotes.
pub open spec fn sessions_map(entries: Seq<(String, TopicSession)>) -> Map<Seq<char>, SessionView>
    decreases entries.len(),
{
    if entries.len() == 0 {
        Map::empty()
    } else {
        sessions_map(entries.drop_last()).insert(entries.last().0@, entries.last().1@)
    }
}

/// Every entry is present in the denoted mapping; with unique keys it holds
/// its own session.
pub proof fn lemma_sessions_map_index(entries: Seq<(String, TopicSession)>, i: int)
    requires
        rkeys_unique(entries),
        0 <= i < entries.len(),
    ensures
        sessions_map(entries).contains_key(rkey_at(entries, i)),
        sessions_map(entries)[rkey_at(entries, i)] == entries[i].1@,
    decreases entries.len(),
{
    if i < entries.len() - 1 {
        assert(rkeys_unique(entries.drop_last())) by {
            assert forall|a: int, b: int|
                0 <= a < b < entries.drop_last().len() implies rkey_at(entries.drop_last(), a)
                != rkey_at(entries.drop_last(), b) by {
                assert(rkey_at(entries, a) != rkey_at(entries, b));
            };
        }
        lemma_sessions_map_index(entries.drop_last(), i);
        assert(rkey_at(entries, i) != rkey_at(entries, entries.len() - 1));
        assert(rkey_at(entries.drop_last(), i) == rkey_at(entries, i));
    }
}

/// Every key of the denoted mapping comes from some entry.
pub proof fn lemma_sessions_map_domain(entries: Seq<(String, TopicSession)>, k: Seq<char>)
    requires
        sessions_map(entries).contains_key(k),
    ensures
        exists|i: int| 0 <= i < entries.len() && rkey_at(entries, i) == k,
    decreases entries.len(),
{
    if entries.len() > 0 {
        if k == entries.last().0@ {
            assert(rkey_at(entries, entries.len() - 1) == k);
        } else {
            lemma_sessions_map_domain(entries.drop_last(), k);
            let i = choose|i: int|
                0 <= i < entries.drop_last().len() && rkey_at(entries.drop_last(), i) == k;
            assert(rkey_at(entries, i) == k);
        }
    }
}

/// Replacing the entry at `i`, key unchanged, updates exactly that key.
pub proof fn lemma_sessions_map_update(
    entries: Seq<(String, TopicSession)>,
    i: int,
    e: (String, TopicSession),
)
    requires
        rkeys_unique(entries),
        0 <= i < entries.len(),
        e.0@ == rkey_at(entries, i),
    ensures
        sessions_map(entries.update(i, e)) =~= sessions_map(entries).insert(e.0@, e.1@),
    decreases entries.len(),
{
    let k = rkey_at(entries, i);
    if i == entries.len() - 1 {
        assert(entries.update(i, e).drop_last() =~= entries.drop_last());
        assert(entries.update(i, e).last() == e);
    } else {
        assert(rkeys_unique(entries.drop_last())) by {
            assert forall|a: int, b: int|
                0 <= a < b < entries.drop_last().len() implies rkey_at(entries.drop_last(), a)
                != rkey_at(entries.drop_last(), b) by {
                assert(rkey_at(entries, a) != rkey_at(entries, b));
            };
        }
        assert(rkey_at(entries.drop_last(), i) == k);
        lemma_sessions_map_update(entries.drop_last(), i, e);
        assert(entries.update(i, e).drop_last() =~= entries.drop_last().update(i, e));
        assert(entries.update(i, e).last() == entries.last());
        assert(k != entries.last().0@) by {
            assert(rkey_at(entries, i) != rkey_at(entries, entries.len() - 1));
        }
        assert(sessions_map(entries.update(i, e)) == sessions_map(
            entries.drop_last().update(i, e),
        ).insert(entries.last().0@, entries.last().1@));
        assert(sessions_map(entries.drop_last()).insert(e.0@, e.1@).insert(
            entries.last().0@,
            entries.last().1@,
        ) =~= sessions_map(entries.drop_last()).insert(entries.last().0@, entries.last().1@).insert(
            e.0@,
            e.1@,
        ));
    }
}

/// What the registry is, mathematically: the keyed sessions and the active
/// key.
pub ghost struct RegistryView {
    pub sessions: Map<Seq<char>, SessionView>,
    pub active: Option<Seq<char>>,
}

/// The registry of all currently joined rooms.  A fresh process starts with
/// an empty registry and no active room.
pub struct Registry {
    pub sessions: Vec<(String, TopicSession)>,
    pub active: Option<String>,
}

impl View for Registry {
    type V = RegistryView;

    open spec fn view(&self) -> RegistryView {
        RegistryView {
            sessions: sessions_map(self.sessions@),
            active: match self.active {
                Some(ref k) => Some(k@),
                None => None,
            },
        }
    }
}

impl Registry {
    /// A well-formed registry: unique keys, well-formed sessions, and an
    /// active key that is present when set.
    pub open spec fn wf(&self) -> bool {
        &&& rkeys_unique(self.sessions@)
        &&& forall|i: int| 0 <= i < self.sessions@.len() ==> (#[trigger] self.sessions@[i].1).wf()
        &&& match self.active {
            Some(ref k) => self@.sessions.contains_key(k@),
            None => true,
        }
    }

    /// An empty registry.
    pub fn new() -> (r: Registry)
        ensures
            r@.sessions == Map::<Seq<char>, SessionView>::empty(),
            r@.active is None,
            r.wf(),
    {
        Registry { sessions: Vec::new(), active: None }
    }

    /// The index of the entry under `key`, if one exists.
    #[verifier::loop_isolation(false)]
    fn find_key(&self, key: &String) -> (r: Option<usize>)
        ensures
            r matches Some(i) ==> i < self.sessions@.len() && rkey_at(self.sessions@, i as int)
                == key@,
            r is None ==> forall|i: int|
                0 <= i < self.sessions@.len() ==> rkey_at(self.sessions@, i) != key@,
    {
        let n = self.sessions.len();
        let mut i: usize = 0;
        while i < n
            invariant
                i <= n,
                forall|j: int| 0 <= j < i ==> rkey_at(self.sessions@, j) != key@,
            decreases n - i,
        {
            if rentry_at(self, i).0 == *key {
                return Some(i);
            }
            i += 1;
        }
        None
    }

    /// Whether a session is registered under `key`.
    pub fn contains(&self, key: &String) -> (r: bool)
        requires
            self.wf(),
        ensures
            r == self@.sessions.contains_key(key@),
    {
        match self.find_key(key) {
            Some(i) => {
                proof {
                    lemma_sessions_map_index(self.sessions@, i as int);
                }
                true
            },
            None => {
                proof {
                    if self@.sessions.contains_key(key@) {
                        lemma_sessions_map_domain(self.sessions@, key@);
                    }
                }
                false
            },
        }
    }

    /// Registers `session` under `key`.
    ///
    /// Fails with `DuplicateKey` when the key is already taken, leaving the
    /// registry — the existing entry included — unchanged; a live session is
    /// never silently overwritten.
    pub fn insert(&mut self, key: String, session: TopicSession) -> (r: Result<(), ChatError>)
        requires
            old(self).wf(),
            session.wf(),
        ensures
            final (self).wf(),
            old(self)@.sessions.contains_key(key@) ==> r == Err::<(), ChatError>(
                ChatError::DuplicateKey,
            ) && *final (self) == *old(self),
            !old(self)@.sessions.contains_key(key@) ==> r is Ok && final (self)@.sessions
                =~= old(self)@.sessions.insert(key@, session@) && final (self)@.active == old(
                self,
            )@.active,
    {
        let ghost entries0 = self.sessions@;
        match self.find_key(&key) {
            Some(i) => {
                proof {
                    lemma_sessions_map_index(entries0, i as int);
                }
                Err(ChatError::DuplicateKey)
            },
            None => {
                proof {
                    if self@.sessions.contains_key(key@) {
                        lemma_sessions_map_domain(entries0, key@);
                    }
                }
                let ghost keyv = key@;
                let ghost sv = session@;
                self.sessions.push((key, session));
                proof {
                    let entries1 = self.sessions@;
                    assert(entries1.drop_last() =~= entries0);
                    assert(entries1.last().0@ == keyv && entries1.last().1@ == sv);
                    assert(sessions_map(entries1) =~= sessions_map(entries0).insert(keyv, sv));
                    assert(rkeys_unique(entries1)) by {
                        assert forall|a: int, b: int|
                            0 <= a < b < entries1.len() implies rkey_at(entries1, a) != rkey_at(
                            entries1,
                            b,
                        ) by {
                            if b < entries1.len() - 1 {
                                assert(rkey_at(entries0, a) != rkey_at(entries0, b));
                            } else {
                                assert(rkey_at(entries0, a) != keyv);
                            }
                        };
                    }
                    assert(final (self).wf()) by {
                        assert(forall|i: int|
                            0 <= i < entries1.len() ==> (#[trigger] entries1[i].1).wf());
                    };
                }
                Ok(())
            },
        }
    }

    /// Marks the session under `key` as the one that receives sends.
    ///
    /// Fails with `UnknownKey`, changing nothing, when no session is
    /// registered under `key`.
    pub fn set_active(&mut self, key: &String) -> (r: Result<(), ChatError>)
        requires
            old(self).wf(),
        ensures
            final (self).wf(),
            !old(self)@.sessions.contains_key(key@) ==> r == Err::<(), ChatError>(
                ChatError::UnknownKey,
            ) && *final (self) == *old(self),
            old(self)@.sessions.contains_key(key@) ==> r is Ok && final (self)@.sessions == old(
                self,
            )@.sessions && final (self)@.active == Some(key@),
    {
        match self.find_key(key) {
            Some(i) => {
                proof {
                    lemma_sessions_map_index(self.sessions@, i as int);
                }
                self.active = Some(key.clone());
                Ok(())
            },
            None => {
                proof {
                    if self@.sessions.contains_key(key@) {
                        lemma_sessions_map_domain(self.sessions@, key@);
                    }
                }
                Err(ChatError::UnknownKey)
            },
        }
    }

    /// Registers `session` under `key` and marks it active, in one step.
    ///
    /// On `DuplicateKey` the registry is left exactly as it was: a room that
    /// cannot be fully activated is not partially registered.
    pub fn activate(&mut self, key: String, session: TopicSession) -> (r: Result<(), ChatError>)
        requires
            old(self).wf(),
            session.wf(),
        ensures
            final (self).wf(),
            old(self)@.sessions.contains_key(key@) ==> r == Err::<(), ChatError>(
                ChatError::DuplicateKey,
            ) && *final (self) == *old(self),
            !old(self)@.sessions.contains_key(key@) ==> r is Ok && final (self)@.sessions
                =~= old(self)@.sessions.insert(key@, session@) && final (self)@.active == Some(
                key@,
            ),
    {
        let key_copy = key.clone();
        let result = self.insert(key, session);
        match result {
            Err(e) => Err(e),
            Ok(()) => {
                match self.set_active(&key_copy) {
                    Ok(()) => Ok(()),
                    Err(e) => Err(e),
                }
            },
        }
    }

    /// The key of the active session, owed whenever any session is active.
    ///
    /// Fails with `NoActiveSession` exactly when no session is active, so a
    /// send is never attempted against a non-existent session.
    pub fn active_key(&self) -> (r: Result<&String, ChatError>)
        requires
            self.wf(),
        ensures
            self@.active is None ==> r == Err::<&String, ChatError>(ChatError::NoActiveSession),
            self@.active matches Some(k) ==> r matches Ok(key) && key@ == k,
    {
        match &self.active {
            Some(key) => Ok(key),
            None => Err(ChatError::NoActiveSession),
        }
    }

    /// The active session itself, owed whenever one is active.
    ///
    /// Fails with `NoActiveSession` exactly when no session is active.
    pub fn active_session(&self) -> (r: Result<&TopicSession, ChatError>)
        requires
            self.wf(),
        ensures
            self@.active is None ==> r == Err::<&TopicSession, ChatError>(
                ChatError::NoActiveSession,
            ),
            self@.active matches Some(k) ==> (r matches Ok(s) && s.wf() && s@
                == self@.sessions[k]),
    {
        let key = match &self.active {
            Some(k) => k,
            None => {
                return Err(ChatError::NoActiveSession);
            },
        };
        match self.find_key(key) {
            Some(i) => {
                proof {
                    lemma_sessions_map_index(self.sessions@, i as int);
                }
                Ok(&rentry_at(self, i).1)
            },
            None => {
                proof {
                    // well-formedness ties the active key to a present entry
                    lemma_sessions_map_domain(self.sessions@, key@);
                    assert(false);
                }
                Err(ChatError::NoActiveSession)
            },
        }
    }

    /// Prepares an outgoing chat line: resolves the active session and
    /// serializes the message.
    ///
    /// Fails with `NoActiveSession`, and hands nothing to broadcast, exactly
    /// when no session is active.  Otherwise it returns the active room's key
    /// and the wire bytes of the chat message.
    pub fn prepare_send(&self, local: &PeerId, text: String) -> (r: Result<
        (String, Vec<u8>),
        ChatError,
    >)
        requires
            self.wf(),
            local.wf(),
        ensures
            self@.active is None ==> (r matches Err(e) && e == ChatError::NoActiveSession),
            self@.active matches Some(k) ==> (r matches Ok((key, bytes)) && key@ == k && bytes@
                =~= message_bytes(MessageView::Chat { from: local@, text: text@ })),
    {
        let key = match self.active_key() {
            Ok(key) => key.clone(),
            Err(e) => {
                return Err(e);
            },
        };
        let message = Message::Chat { from: local.duplicate(), text };
        let bytes = message.to_vec();
        Ok((key, bytes))
    }

    /// Routes one inbound stream item to the session under `key`.
    ///
    /// Fails with `UnknownKey`, changing nothing, when no session is
    /// registered under `key`.  Otherwise that session processes the item as
    /// its own event loop step — a malformed payload is skipped, not fatal —
    /// and every other session, and the active key, stay unchanged.
    pub fn apply_event(&mut self, key: &String, event: InboundEvent) -> (r: Result<
        Outcome,
        ChatError,
    >)
        requires
            old(self).wf(),
        ensures
            final (self).wf(),
            final (self)@.active == old(self)@.active,
            !old(self)@.sessions.contains_key(key@) ==> r == Err::<Outcome, ChatError>(
                ChatError::UnknownKey,
            ) && *final (self) == *old(self),
            old(self)@.sessions.contains_key(key@) ==> ({
                &&& r is Ok
                &&& final (self)@.sessions.dom() == old(self)@.sessions.dom()
                &&& forall|p: Seq<u8>|
                    old(self)@.sessions[key@].names.contains_key(p) ==> final (self)@.sessions[key@].names.contains_key(p)
                &&& forall|k2: Seq<char>|
                    old(self)@.sessions.contains_key(k2) && k2 != key@ ==> final (self)@.sessions[k2] == old(self)@.sessions[k2]
                &&& final (self)@.sessions[key@].room == old(self)@.sessions[key@].room
                &&& (event matches InboundEvent::Other ==> (r matches Ok(out) && out
                    == Outcome::Ignored) && final (self)@.sessions[key@] == old(
                    self,
                )@.sessions[key@])
                &&& (event matches InboundEvent::Payload { bytes } && (forall|mv: MessageView|
                    mv.wf() ==> bytes@ != #[trigger] message_bytes(mv)) ==> (r matches Ok(out)
                    && out == Outcome::Skipped) && final (self)@.sessions[key@].names == old(
                    self,
                )@.sessions[key@].names)
                &&& forall|mv: MessageView| #![trigger message_bytes(mv)]
                    (event matches InboundEvent::Payload { bytes } && mv.wf() && bytes@
                        == message_bytes(mv)) ==> ((mv matches MessageView::AboutMe { from, name }
                        ==> (final (self)@.sessions[key@].names =~= old(
                        self,
                    )@.sessions[key@].names.insert(from, name) && (r matches Ok(out)
                        && out matches Outcome::PeerRenamed { peer, name: n } && peer@ == from
                        && n@ == name))) && (mv matches MessageView::Chat { from, text } ==> (final (self)@.sessions[key@].names == old(self)@.sessions[key@].names && (r matches Ok(
                        out,
                    ) && out matches Outcome::MessageReceived { sender, text: t } && t@ == text && (
                    old(self)@.sessions[key@].names.contains_key(from) ==> sender@ == old(
                        self,
                    )@.sessions[key@].names[from]) && (!old(self)@.sessions[key@].names.contains_key(
                        from,
                    ) ==> sender@ == hex_of(from.take(5)))))))
            }),
    {
        let ghost entries0 = self.sessions@;
        let i = match self.find_key(key) {
            Some(i) => i,
            None => {
                proof {
                    if self@.sessions.contains_key(key@) {
                        lemma_sessions_map_domain(entries0, key@);
                    }
                }
                return Err(ChatError::UnknownKey);
            },
        };
        proof {
            lemma_sessions_map_index(entries0, i as int);
        }
        let (entry_key, mut session) = self.sessions.remove(i);
        let outcome = session.handle_event(event);
        let ghost sv = session@;
        self.sessions.insert(i, (entry_key, session));
        proof {
            let entries1 = self.sessions@;
            assert(entries1 =~= entries0.update(i as int, entries1[i as int]));
            assert(rkey_at(entries1, i as int) == key@);
            lemma_sessions_map_update(entries0, i as int, entries1[i as int]);
            assert(entries1[i as int].1@ == sv);
            assert(sessions_map(entries1) =~= sessions_map(entries0).insert(key@, sv));
            assert(rkeys_unique(entries1)) by {
                assert forall|a: int, b: int|
                    0 <= a < b < entries1.len() implies rkey_at(entries1, a) != rkey_at(
                    entries1,
                    b,
                ) by {
                    assert(rkey_at(entries0, a) == rkey_at(entries1, a));
                    assert(rkey_at(entries0, b) == rkey_at(entries1, b));
                };
            }
            assert(final (self).wf()) by {
                assert(forall|j: int|
                    0 <= j < entries1.len() ==> (#[trigger] entries1[j].1).wf());
                match self.active {
                    Some(ref k) => {
                        assert(self@.sessions.contains_key(k@));
                    },
                    None => {},
                }
            };
            assert(final (self)@.sessions.dom() =~= old(self)@.sessions.dom());
        }
        Ok(outcome)
    }
}

/// The registry entry of `r` at index `i`.
fn rentry_at(r: &Registry, i: usize) -> (e: &(String, TopicSession))
    requires
        i < r.sessions@.len(),
    ensures
        e == r.sessions@[i as int],
{
    &r.sessions[i]
}

} // verus!

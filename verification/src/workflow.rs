//! The join/create workflow: an empty ticket input creates a fresh room, a
//! non-empty one joins the room the ticket names.  Either way the caller gets
//! the values to hand to the transport — the room to subscribe to, the seed
//! peers to dial, and the identity announcement to broadcast before any chat
//! line.

use vstd::prelude::*;
use vstd::string::StrSliceExecFns;

use crate::errors::ChatError;
use crate::hexfmt::{hex_of, lemma_hex_of_len};
use crate::message::{message_bytes, Message, MessageView};
use crate::peer::{PeerAddr, PeerId};
use crate::session::TopicSession;
use crate::ticket::{ticket_chars, RoomId, Ticket, TicketView};

verus! {

/// Relies on `rand::random`: draws 32 bytes from the thread-local
/// cryptographically strong generator.  Nothing is promised of the values.
#[verifier::external_body]
fn random_bytes_32() -> (r: Vec<u8>)
    ensures
        r@.len() == 32,
{
    rand::random::<[u8; 32]>().to_vec()
}

/// Relies on `petname::petname`: a pronounceable name of `words` words drawn
/// from the default English word lists, joined by `separator`; `None` when a
/// word list is empty.  Its generator yields a name only when the built
/// string is nonempty, so a returned name is never empty.  Which name comes
/// back depends on the thread-local generator.
#[verifier::external_body]
fn random_pet_name(words: u8, separator: &str) -> (r: Option<String>)
    ensures
        r matches Some(s) ==> s@.len() > 0,
{
    petname::petname(words, separator)
}

/// What the workflow decided to do, with everything the transport needs.
#[derive(Debug)]
pub enum Plan {
    /// Create a fresh room: subscribe with no seeds and share the ticket.
    Create { ticket: Ticket, session: TopicSession },
    /// Join the ticket's room: dial its seeds and subscribe using `contacts`
    /// as initial contact points.
    Join { ticket: Ticket, session: TopicSession, contacts: Vec<PeerId> },
}

/// Creates a fresh room: generates its identifier and builds the invitation
/// whose only seed is the local peer's address, so that a second party can
/// dial back.  The session starts with no peer-name knowledge.
pub fn create_room(local: &PeerAddr) -> (r: (Ticket, TopicSession))
    requires
        local.ids_wf(),
    ensures
        r.0.ids_wf(),
        r.1.wf(),
        r.1@.room == r.0@.topic,
        r.1@.names == Map::<Seq<u8>, Seq<char>>::empty(),
        r.0@.nodes.len() == 1,
        r.0@.nodes[0] == local@,
{
    let room = RoomId::new(random_bytes_32());
    let session = TopicSession::new(room.duplicate());
    let mut nodes: Vec<PeerAddr> = Vec::new();
    nodes.push(local.duplicate());
    let ticket = Ticket::new(room, nodes);
    proof {
        assert(ticket@.nodes[0] == local@);
    }
    (ticket, session)
}

/// Validates a decoded ticket and prepares the join: a fresh session for the
/// ticket's room and the seed identifiers to contact.
///
/// Fails with `EmptyTicket` exactly when the ticket lists no seeds: such a
/// ticket cannot be joined.
pub fn join_room(ticket: &Ticket) -> (r: Result<(TopicSession, Vec<PeerId>), ChatError>)
    requires
        ticket.ids_wf(),
    ensures
        ticket@.nodes.len() == 0 ==> r == Err::<(TopicSession, Vec<PeerId>), ChatError>(
            ChatError::EmptyTicket,
        ),
        ticket@.nodes.len() > 0 ==> (r matches Ok((session, contacts)) && session.wf()
            && session@.room == ticket@.topic && session@.names == Map::<
            Seq<u8>,
            Seq<char>,
        >::empty() && Seq::new(contacts@.len(), |i: int| contacts@[i]@) =~= Seq::new(
            ticket@.nodes.len(),
            |i: int| ticket@.nodes[i].node_id,
        )),
{
    if ticket.nodes.len() == 0 {
        return Err(ChatError::EmptyTicket);
    }
    let session = TopicSession::new(ticket.topic.duplicate());
    let mut contacts: Vec<PeerId> = Vec::new();
    let n = ticket.nodes.len();
    let mut i: usize = 0;
    #[verifier::loop_isolation(false)]
    while i < n
        invariant
            i <= n,
            contacts@.len() == i,
            forall|j: int| 0 <= j < i ==> (#[trigger] contacts@[j]@) == ticket@.nodes[j].node_id,
        decreases n - i,
    {
        contacts.push(node_at(ticket, i).node_id.duplicate());
        i += 1;
    }
    proof {
        assert(Seq::new(contacts@.len(), |i: int| contacts@[i]@) =~= Seq::new(
            ticket@.nodes.len(),
            |i: int| ticket@.nodes[i].node_id,
        ));
    }
    Ok((session, contacts))
}

/// The seed of `t` at index `i`.
fn node_at(t: &Ticket, i: usize) -> (r: &PeerAddr)
    requires
        i < t.nodes@.len(),
    ensures
        r == t.nodes@[i as int],
{
    &t.nodes[i]
}

/// Chooses between creating and joining: an empty ticket input selects
/// creating a fresh room, a non-empty one is decoded and joined.
///
/// A failure — a malformed ticket, a ticket without seeds — aborts the
/// workflow before anything is registered.
pub fn plan_create_or_join(local: &PeerAddr, ticket_str: &str) -> (r: Result<Plan, ChatError>)
    requires
        local.ids_wf(),
    ensures
        ticket_str@.len() == 0 ==> (r matches Ok(p) && p matches Plan::Create { ticket, session }
            && ticket.ids_wf() && ticket@.nodes.len() == 1 && ticket@.nodes[0]
            == local@ && session.wf() && session@.room == ticket@.topic && session@.names == Map::<
            Seq<u8>,
            Seq<char>,
        >::empty()),
        ticket_str@.len() != 0 ==> (r matches Ok(p) ==> p matches Plan::Join { .. }),
        ticket_str@.len() != 0 ==> (r matches Err(e) ==> (e == ChatError::EmptyTicket || e
            == ChatError::MalformedTicket)),
        ticket_str@.len() != 0 ==> ((forall|tv: TicketView| #![trigger ticket_chars(tv)]
            tv.wf() ==> ticket_str@ != ticket_chars(tv)) ==> r == Err::<Plan, ChatError>(
            ChatError::MalformedTicket,
        )),
        forall|tv: TicketView| #![trigger ticket_chars(tv)]
            (ticket_str@.len() != 0 && tv.wf() && ticket_str@ == ticket_chars(tv)) ==> ((
            tv.nodes.len() == 0 ==> r == Err::<Plan, ChatError>(ChatError::EmptyTicket)) && (
            tv.nodes.len() > 0 ==> (r matches Ok(p) && p matches Plan::Join {
                ticket,
                session,
                contacts,
            } && ticket@ == tv && ticket.ids_wf() && session.wf() && session@.room == tv.topic
                && session@.names == Map::<Seq<u8>, Seq<char>>::empty() && Seq::new(
                contacts@.len(),
                |i: int| contacts@[i]@,
            ) =~= Seq::new(tv.nodes.len(), |i: int| tv.nodes[i].node_id)))),
{
    if ticket_str.unicode_len() == 0 {
        let (ticket, session) = create_room(local);
        return Ok(Plan::Create { ticket, session });
    }
    let ticket = match Ticket::decode(ticket_str) {
        Ok(t) => t,
        Err(e) => {
            return Err(e);
        },
    };
    let (session, contacts) = match join_room(&ticket) {
        Ok(x) => x,
        Err(e) => {
            return Err(e);
        },
    };
    Ok(Plan::Join { ticket, session, contacts })
}

/// The identity announcement broadcast right after subscribing — before any
/// chat line — so existing members learn the new participant's name.
pub fn initial_announcement(local: &PeerId, username: &String) -> (r: Vec<u8>)
    requires
        local.wf(),
    ensures
        r@ =~= message_bytes(
            MessageView::AboutMe { from: local@, name: username@ },
        ),
{
    let message = Message::AboutMe { from: local.duplicate(), name: username.clone() };
    message.to_vec()
}

/// The key a drawn name yields for a self-created room: the name itself when
/// one was drawn, else the room's canonical form.
pub fn pick_room_key(drawn: Option<String>, room: &RoomId) -> (r: String)
    ensures
        drawn matches Some(name) ==> r == name,
        drawn is None ==> r@ == hex_of(room@),
{
    match drawn {
        Some(name) => name,
        None => room.to_hex(),
    }
}

/// A registry key for a self-created room: a freshly generated pronounceable
/// multi-word name, or the room's canonical form when the generator yields
/// nothing.  Either way the key is nonempty.  Uniqueness is not checked here;
/// registering under the key fails with `DuplicateKey` on a collision.
pub fn fresh_room_key(room: &RoomId) -> (r: String)
    requires
        room.wf(),
    ensures
        r@.len() > 0,
{
    let drawn = random_pet_name(7, ":");
    let key = pick_room_key(drawn, room);
    proof {
        lemma_hex_of_len(room@);
    }
    key
}

/// The registry key for the room a plan opens: for a joined room the room's
/// canonical string form — stable across repeat joins of the same ticket —
/// and for a self-created room a freshly generated pronounceable name.
pub fn room_key_for(plan: &Plan) -> (r: String)
    requires
        plan matches Plan::Create { ticket, .. } ==> ticket.topic.wf(),
        plan matches Plan::Join { ticket, .. } ==> ticket.topic.wf(),
    ensures
        plan matches Plan::Join { ticket, .. } ==> r@ == hex_of(ticket@.topic),
        r@.len() > 0,
{
    match plan {
        Plan::Create { ticket, .. } => fresh_room_key(&ticket.topic),
        Plan::Join { ticket, .. } => {
            proof {
                lemma_hex_of_len(ticket@.topic);
            }
            ticket.topic.to_hex()
        },
    }
}

} // verus!

//! Tickets: the shareable invitation into a room.
//!
//! A ticket names the room and lists seed peer addresses to dial.  It travels
//! as text: the room identifier, the seed count and the seeds are laid out as
//! bytes and rendered in lowercase hexadecimal, so the token carries no
//! whitespace or control characters and every ticket has exactly one
//! rendering.

use vstd::prelude::*;
use vstd::slice::slice_to_vec;

use crate::errors::ChatError;
use crate::hexfmt::{hex_decode, hex_encode, hex_of, lemma_hex_of_injective};
use crate::peer::{addr_bytes, lemma_addr_bytes_prefix_unique, push_addr, read_addr, PeerAddr, PeerAddrView};
use crate::wire::{
    bytes_eq, lemma_prefix_bytes, lemma_split_prefix, lemma_u64_bytes_injective, push_u64,
    read_bytes, read_u64, tail_from, u64_bytes,
};

verus! {

/// The length of a room identifier, in bytes.
pub const ROOM_ID_LEN: usize = 32;

/// A fixed-size opaque identifier for a chat room, generated from a
/// cryptographically strong random source so that it is globally unique with
/// overwhelming probability.
#[derive(Debug)]
pub struct RoomId {
    pub bytes: Vec<u8>,
}

impl View for RoomId {
    type V = Seq<u8>;

    open spec fn view(&self) -> Seq<u8> {
        self.bytes@
    }
}

impl RoomId {
    /// A room identifier holds exactly `ROOM_ID_LEN` bytes.
    pub open spec fn wf(&self) -> bool {
        self@.len() == ROOM_ID_LEN
    }

    /// Builds a room identifier from its raw bytes.
    pub fn new(bytes: Vec<u8>) -> (r: RoomId)
        requires
            bytes@.len() == ROOM_ID_LEN,
        ensures
            r@ == bytes@,
            r.wf(),
    {
        RoomId { bytes }
    }

    /// Builds a room identifier from raw bytes of unchecked length.
    pub fn from_bytes(bytes: Vec<u8>) -> (r: Option<RoomId>)
        ensures
            r is Some <==> bytes@.len() == ROOM_ID_LEN,
            r matches Some(id) ==> id@ == bytes@ && id.wf(),
    {
        if bytes.len() == ROOM_ID_LEN {
            Some(RoomId { bytes })
        } else {
            None
        }
    }

    /// An identical copy.
    pub fn duplicate(&self) -> (r: RoomId)
        ensures
            r@ == self@,
    {
        RoomId { bytes: slice_to_vec(self.bytes.as_slice()) }
    }

    /// Whether two identifiers name the same room.
    pub fn same_as(&self, other: &RoomId) -> (r: bool)
        ensures
            r == (self@ == other@),
    {
        bytes_eq(self.bytes.as_slice(), other.bytes.as_slice())
    }

    /// The canonical string form of the room identifier: lowercase
    /// hexadecimal.  Joined rooms are registered under this key, so repeat
    /// joins of the same room address the same registry entry.
    pub fn to_hex(&self) -> (r: String)
        ensures
            r@ == hex_of(self@),
    {
        hex_encode(self.bytes.as_slice())
    }
}

/// What a ticket is, mathematically: the room and the seed addresses.
pub ghost struct TicketView {
    pub topic: Seq<u8>,
    pub nodes: Seq<PeerAddrView>,
}

impl TicketView {
    /// A well-formed ticket: a full-length room identifier and well-formed
    /// seeds whose count fits the wire's length field.
    pub open spec fn wf(self) -> bool {
        &&& self.topic.len() == ROOM_ID_LEN
        &&& self.nodes.len() <= u64::MAX
        &&& forall|i: int| 0 <= i < self.nodes.len() ==> (#[trigger] self.nodes[i]).wf()
    }
}

/// A shareable invitation: the room's identifier plus the seed peer addresses
/// a joiner dials first.  A ticket with no seeds can only come from the peer
/// that created the room; a joiner needs at least one seed.
#[derive(Debug)]
pub struct Ticket {
    pub topic: RoomId,
    pub nodes: Vec<PeerAddr>,
}

impl View for Ticket {
    type V = TicketView;

    open spec fn view(&self) -> TicketView {
        TicketView {
            topic: self.topic@,
            nodes: Seq::new(self.nodes@.len(), |i: int| self.nodes@[i]@),
        }
    }
}

/// The wire bytes of a seed list: each address in order.
pub open spec fn addrs_bytes(ns: Seq<PeerAddrView>) -> Seq<u8>
    decreases ns.len(),
{
    if ns.len() == 0 {
        Seq::empty()
    } else {
        addr_bytes(ns[0]) + addrs_bytes(ns.drop_first())
    }
}

/// The wire bytes of a ticket: the room identifier, the seed count, then the
/// seeds.
pub open spec fn ticket_bytes(t: TicketView) -> Seq<u8> {
    t.topic + u64_bytes(t.nodes.len() as u64) + addrs_bytes(t.nodes)
}

/// The text form of a ticket: its wire bytes in lowercase hexadecimal.
pub open spec fn ticket_chars(t: TicketView) -> Seq<char> {
    hex_of(ticket_bytes(t))
}

/// Extending the encoded prefix of a seed list by one address.
pub proof fn lemma_addrs_bytes_snoc(ns: Seq<PeerAddrView>, j: int)
    requires
        0 <= j < ns.len(),
    ensures
        addrs_bytes(ns.take(j + 1)) =~= addrs_bytes(ns.take(j)) + addr_bytes(ns[j]),
    decreases j,
{
    if j == 0 {
        assert(ns.take(1).len() == 1);
        assert(ns.take(1)[0] == ns[0]);
        assert(ns.take(1).drop_first() =~= Seq::<PeerAddrView>::empty());
        assert(addrs_bytes(Seq::<PeerAddrView>::empty()) =~= Seq::<u8>::empty());
        assert(addrs_bytes(ns.take(1)) == addr_bytes(ns.take(1)[0]) + addrs_bytes(
            ns.take(1).drop_first(),
        ));
        assert(ns.take(0) =~= Seq::<PeerAddrView>::empty());
        assert(addrs_bytes(ns.take(j + 1)) =~= addrs_bytes(ns.take(j)) + addr_bytes(ns[j]));
    } else {
        let t = ns.drop_first();
        lemma_addrs_bytes_snoc(t, j - 1);
        assert(ns.take(j + 1)[0] == ns[0]);
        assert(ns.take(j + 1).drop_first() =~= t.take(j));
        assert(ns.take(j)[0] == ns[0]);
        assert(ns.take(j).drop_first() =~= t.take(j - 1));
        assert(t[j - 1] == ns[j]);
        assert(addrs_bytes(ns.take(j + 1)) =~= addr_bytes(ns[0]) + addrs_bytes(t.take(j)));
        assert(addrs_bytes(ns.take(j)) =~= addr_bytes(ns[0]) + addrs_bytes(t.take(j - 1)));
        assert(addr_bytes(ns[0]) + (addrs_bytes(t.take(j - 1)) + addr_bytes(ns[j])) =~= (addr_bytes(
            ns[0],
        ) + addrs_bytes(t.take(j - 1))) + addr_bytes(ns[j]));
        assert(addrs_bytes(ns.take(j + 1)) =~= addrs_bytes(ns.take(j)) + addr_bytes(ns[j]));
    }
}

/// The tail of a seed list's encoding starts with the next address.
pub proof fn lemma_addrs_bytes_skip(ns: Seq<PeerAddrView>, j: int)
    requires
        0 <= j < ns.len(),
    ensures
        addrs_bytes(ns.skip(j)) =~= addr_bytes(ns[j]) + addrs_bytes(ns.skip(j + 1)),
{
    assert(ns.skip(j)[0] == ns[j]);
    assert(ns.skip(j).drop_first() =~= ns.skip(j + 1));
}

/// A seed list's encoding splits at any point into the encodings of its two
/// halves.
pub proof fn lemma_addrs_bytes_split(ns: Seq<PeerAddrView>, j: int)
    requires
        0 <= j <= ns.len(),
    ensures
        addrs_bytes(ns) =~= addrs_bytes(ns.take(j)) + addrs_bytes(ns.skip(j)),
    decreases ns.len() - j,
{
    if j == ns.len() {
        assert(ns.take(j) =~= ns);
        assert(addrs_bytes(ns.skip(j)) =~= Seq::<u8>::empty());
    } else {
        lemma_addrs_bytes_split(ns, j + 1);
        lemma_addrs_bytes_snoc(ns, j);
        lemma_addrs_bytes_skip(ns, j);
        assert((addrs_bytes(ns.take(j)) + addr_bytes(ns[j])) + addrs_bytes(ns.skip(j + 1))
            =~= addrs_bytes(ns.take(j)) + (addr_bytes(ns[j]) + addrs_bytes(ns.skip(j + 1))));
    }
}

/// Each encoded well-formed address takes at least its identifier and count
/// bytes.
pub proof fn lemma_addrs_bytes_min_len(ns: Seq<PeerAddrView>)
    requires
        forall|i: int| 0 <= i < ns.len() ==> (#[trigger] ns[i]).wf(),
    ensures
        addrs_bytes(ns).len() >= 40 * ns.len(),
    decreases ns.len(),
{
    if ns.len() > 0 {
        assert(ns[0].wf());
        assert(forall|i: int|
            0 <= i < ns.drop_first().len() ==> (#[trigger] ns.drop_first()[i]).wf());
        lemma_addrs_bytes_min_len(ns.drop_first());
    }
}

/// Two seed lists of the same length framed at the same position of a stream
/// are the same list.
pub proof fn lemma_addrs_bytes_prefix_unique(
    s: Seq<u8>,
    pos: int,
    n1: Seq<PeerAddrView>,
    n2: Seq<PeerAddrView>,
)
    requires
        0 <= pos <= s.len(),
        n1.len() == n2.len(),
        forall|i: int| 0 <= i < n1.len() ==> (#[trigger] n1[i]).wf(),
        forall|i: int| 0 <= i < n2.len() ==> (#[trigger] n2[i]).wf(),
        addrs_bytes(n1).is_prefix_of(tail_from(s, pos)),
        addrs_bytes(n2).is_prefix_of(tail_from(s, pos)),
    ensures
        n1 == n2,
    decreases n1.len(),
{
    if n1.len() == 0 {
        assert(n1 =~= n2);
    } else {
        assert(addrs_bytes(n1) =~= addr_bytes(n1[0]) + addrs_bytes(n1.drop_first()));
        assert(addrs_bytes(n2) =~= addr_bytes(n2[0]) + addrs_bytes(n2.drop_first()));
        lemma_split_prefix(s, pos, addr_bytes(n1[0]), addrs_bytes(n1.drop_first()));
        lemma_split_prefix(s, pos, addr_bytes(n2[0]), addrs_bytes(n2.drop_first()));
        lemma_addr_bytes_prefix_unique(s, pos, n1[0], n2[0]);
        let pos2 = pos + addr_bytes(n1[0]).len();
        assert(forall|i: int|
            0 <= i < n1.drop_first().len() ==> (#[trigger] n1.drop_first()[i]).wf());
        assert(forall|i: int|
            0 <= i < n2.drop_first().len() ==> (#[trigger] n2.drop_first()[i]).wf());
        lemma_addrs_bytes_prefix_unique(s, pos2, n1.drop_first(), n2.drop_first());
        assert forall|i: int| 0 <= i < n1.len() implies #[trigger] n1[i] == n2[i] by {
            if i > 0 {
                assert(n1.drop_first()[i - 1] == n1[i]);
                assert(n2.drop_first()[i - 1] == n2[i]);
            }
        }
        assert(n1 =~= n2);
    }
}

/// The token loses nothing: no two well-formed tickets render as the same
/// token.  Together with `decode`'s contract this is the round trip: decoding
/// the token of a ticket can only return that ticket.
#[verifier::rlimit(100)]
pub proof fn lemma_ticket_chars_injective(a: TicketView, b: TicketView)
    requires
        a.wf(),
        b.wf(),
        ticket_chars(a) == ticket_chars(b),
    ensures
        a == b,
{
    lemma_hex_of_injective(ticket_bytes(a), ticket_bytes(b));
    let s = ticket_bytes(a);
    assert(s =~= a.topic + (u64_bytes(a.nodes.len() as u64) + addrs_bytes(a.nodes)));
    assert(s =~= b.topic + (u64_bytes(b.nodes.len() as u64) + addrs_bytes(b.nodes)));
    assert(s.is_prefix_of(tail_from(s, 0))) by {
        assert(tail_from(s, 0) =~= s);
    }
    lemma_split_prefix(s, 0, a.topic, u64_bytes(a.nodes.len() as u64) + addrs_bytes(a.nodes));
    lemma_split_prefix(s, 0, b.topic, u64_bytes(b.nodes.len() as u64) + addrs_bytes(b.nodes));
    assert(a.topic =~= b.topic) by {
        assert(a.topic =~= s.subrange(0, 32));
        assert(b.topic =~= s.subrange(0, 32));
    }
    lemma_split_prefix(s, 32, u64_bytes(a.nodes.len() as u64), addrs_bytes(a.nodes));
    lemma_split_prefix(s, 32, u64_bytes(b.nodes.len() as u64), addrs_bytes(b.nodes));
    assert(u64_bytes(a.nodes.len() as u64) =~= u64_bytes(b.nodes.len() as u64)) by {
        lemma_prefix_bytes(s, 32, u64_bytes(a.nodes.len() as u64));
        lemma_prefix_bytes(s, 32, u64_bytes(b.nodes.len() as u64));
    }
    lemma_u64_bytes_injective(a.nodes.len() as u64, b.nodes.len() as u64);
    lemma_addrs_bytes_prefix_unique(s, 40, a.nodes, b.nodes);
}

impl Ticket {
    /// The structural part of well-formedness that constructors establish.
    pub open spec fn ids_wf(&self) -> bool {
        &&& self.topic.wf()
        &&& forall|i: int| 0 <= i < self.nodes@.len() ==> (#[trigger] self.nodes@[i]).ids_wf()
    }

    /// Builds a ticket from a room identifier and seed addresses.
    pub fn new(topic: RoomId, nodes: Vec<PeerAddr>) -> (r: Ticket)
        requires
            topic.wf(),
            forall|i: int| 0 <= i < nodes@.len() ==> (#[trigger] nodes@[i]).ids_wf(),
        ensures
            r@.topic == topic@,
            r@.nodes == Seq::new(nodes@.len(), |i: int| nodes@[i]@),
            r.ids_wf(),
    {
        Ticket { topic, nodes }
    }

    /// Renders the ticket as its shareable text token.
    #[verifier::loop_isolation(false)]
    pub fn encode(&self) -> (r: String)
        requires
            self.ids_wf(),
        ensures
            r@ =~= ticket_chars(self@),
            self@.wf(),
    {
        let mut body: Vec<u8> = slice_to_vec(self.topic.bytes.as_slice());
        push_u64(&mut body, self.nodes.len() as u64);
        let ghost nv = self@.nodes;
        let n = self.nodes.len();
        let mut i: usize = 0;
        while i < n
            invariant
                i <= n,
                body@ =~= self@.topic + u64_bytes(n as u64) + addrs_bytes(nv.take(i as int)),
                forall|j: int| 0 <= j < i ==> (#[trigger] nv[j]).wf(),
            decreases n - i,
        {
            push_addr(&mut body, self_node(self, i));
            proof {
                assert(nv[i as int] == self.nodes@[i as int]@);
                lemma_addrs_bytes_snoc(nv, i as int);
                assert(body@ =~= self@.topic + u64_bytes(n as u64) + addrs_bytes(
                    nv.take(i + 1),
                ));
            }
            i += 1;
        }
        proof {
            assert(nv.take(n as int) =~= nv);
            assert(body@ =~= ticket_bytes(self@));
        }
        hex_encode(body.as_slice())
    }

    /// Reads a ticket back from its text token.
    ///
    /// Fails with `MalformedTicket` exactly when no well-formed ticket renders
    /// as `s`, and with `EmptyTicket` exactly when the one ticket that renders
    /// as `s` lists no seeds; otherwise it returns that one ticket.
    #[verifier::loop_isolation(false)]
    #[verifier::rlimit(100)]
    pub fn decode(s: &str) -> (r: Result<Ticket, ChatError>)
        ensures
            r matches Ok(t) ==> t.ids_wf() && t@.wf() && t@.nodes.len() > 0 && s@
                =~= ticket_chars(t@),
            forall|tv: TicketView| #![trigger ticket_chars(tv)]
                tv.wf() && s@ == ticket_chars(tv) ==> ((tv.nodes.len() == 0 ==> (
                r matches Err(e) && e == ChatError::EmptyTicket)) && (tv.nodes.len() > 0 ==> (
                r matches Ok(t) && t@ == tv))),
            r matches Err(e) ==> (e == ChatError::EmptyTicket || e == ChatError::MalformedTicket),
            (r matches Err(e) && e == ChatError::EmptyTicket) ==> exists|tv: TicketView|
                tv.wf() && tv.nodes.len() == 0 && s@ == #[trigger] ticket_chars(tv),
    {
        let body = match hex_decode(s) {
            Some(v) => v,
            None => {
                proof {
                    assert forall|tv: TicketView|
                        tv.wf() && s@ == #[trigger] ticket_chars(tv) implies false by {
                        assert(s@ == hex_of(ticket_bytes(tv)));
                    };
                }
                return Err(ChatError::MalformedTicket);
            },
        };
        let ghost bv = body@;
        proof {
            assert forall|tv: TicketView|
                tv.wf() && s@ == #[trigger] ticket_chars(tv) implies bv == ticket_bytes(tv)
                && ticket_bytes(tv).is_prefix_of(tail_from(bv, 0)) by {
                assert(s@ == hex_of(ticket_bytes(tv)));
                assert(tail_from(bv, 0) =~= bv);
            };
        }
        let b = body.as_slice();
        proof {
            assert(b@ == bv);
            assert forall|tv: TicketView|
                tv.wf() && s@ == #[trigger] ticket_chars(tv) implies b@.subrange(0, 32)
                =~= tv.topic && b@.subrange(32, 40) =~= u64_bytes(tv.nodes.len() as u64)
                && addrs_bytes(tv.nodes).is_prefix_of(tail_from(b@, 40)) && ticket_bytes(
                tv,
            ).len() == b@.len() by {
                assert(ticket_bytes(tv) =~= tv.topic + (u64_bytes(tv.nodes.len() as u64)
                    + addrs_bytes(tv.nodes)));
                lemma_split_prefix(
                    b@,
                    0,
                    tv.topic,
                    u64_bytes(tv.nodes.len() as u64) + addrs_bytes(tv.nodes),
                );
                lemma_split_prefix(
                    b@,
                    32,
                    u64_bytes(tv.nodes.len() as u64),
                    addrs_bytes(tv.nodes),
                );
                lemma_prefix_bytes(b@, 32, u64_bytes(tv.nodes.len() as u64));
            };
        }
        let (topic_bytes, p1) = match read_bytes(b, 0, ROOM_ID_LEN) {
            Some(x) => x,
            None => {
                return Err(ChatError::MalformedTicket);
            },
        };
        let topic = RoomId::new(topic_bytes);
        let (count, p2) = match read_u64(b, p1) {
            Some(x) => x,
            None => {
                return Err(ChatError::MalformedTicket);
            },
        };
        proof {
            assert forall|tv: TicketView|
                tv.wf() && s@ == #[trigger] ticket_chars(tv) implies tv.topic == topic@
                && tv.nodes.len() as u64 == count by {
                assert(u64_bytes(tv.nodes.len() as u64) =~= b@.subrange(32, 40));
                assert(u64_bytes(count) =~= b@.subrange(p1 as int, p1 + 8));
                assert(b@.subrange(32, 40) =~= b@.subrange(p1 as int, p1 + 8));
                lemma_u64_bytes_injective(count, tv.nodes.len() as u64);
            };
        }
        // each encoded seed takes at least forty bytes, so the count is
        // bounded by what remains
        if count > ((b.len() - p2) / 40) as u64 {
            proof {
                assert forall|tv: TicketView|
                    tv.wf() && s@ == #[trigger] ticket_chars(tv) implies false by {
                    lemma_addrs_bytes_min_len(tv.nodes);
                };
            }
            return Err(ChatError::MalformedTicket);
        }
        let total = count as usize;
        let mut nodes: Vec<PeerAddr> = Vec::new();
        let mut cur = p2;
        let mut j: usize = 0;
        while j < total
            invariant
                40 <= p2 <= cur <= b@.len(),
                j <= total,
                total == count,
                nodes@.len() == j,
                b@.subrange(0, cur as int) =~= topic@ + u64_bytes(count) + addrs_bytes(
                    Seq::new(nodes@.len(), |i: int| nodes@[i]@),
                ),
                topic@.len() == ROOM_ID_LEN,
                forall|i: int| 0 <= i < j ==> (#[trigger] nodes@[i]@).wf(),
                forall|i: int| 0 <= i < j ==> (#[trigger] nodes@[i]).ids_wf(),
                forall|tv: TicketView| #![trigger ticket_chars(tv)]
                    tv.wf() && s@ == ticket_chars(tv) ==> tv.topic == topic@ && tv.nodes.len()
                        == total && Seq::new(nodes@.len(), |i: int| nodes@[i]@) =~= tv.nodes.take(
                        j as int,
                    ) && cur == 40 + addrs_bytes(tv.nodes.take(j as int)).len(),
            decreases total - j,
        {
            let ghost nv = Seq::new(nodes@.len(), |i: int| nodes@[i]@);
            proof {
                assert forall|tv: TicketView|
                    tv.wf() && s@ == #[trigger] ticket_chars(tv) implies addr_bytes(
                    tv.nodes[j as int],
                ).is_prefix_of(tail_from(b@, cur as int)) && tv.nodes[j as int].wf() by {
                    assert(addrs_bytes(tv.nodes).is_prefix_of(tail_from(b@, 40)));
                    lemma_addrs_bytes_split(tv.nodes, j as int);
                    lemma_split_prefix(
                        b@,
                        40,
                        addrs_bytes(tv.nodes.take(j as int)),
                        addrs_bytes(tv.nodes.skip(j as int)),
                    );
                    lemma_addrs_bytes_skip(tv.nodes, j as int);
                    lemma_split_prefix(
                        b@,
                        cur as int,
                        addr_bytes(tv.nodes[j as int]),
                        addrs_bytes(tv.nodes.skip(j + 1)),
                    );
                };
            }
            let (a, next) = match read_addr(b, cur) {
                Some(x) => x,
                None => {
                    proof {
                        assert forall|tv: TicketView|
                            tv.wf() && s@ == #[trigger] ticket_chars(tv) implies false by {
                            assert(addr_bytes(tv.nodes[j as int]).is_prefix_of(
                                tail_from(b@, cur as int),
                            ));
                        };
                    }
                    return Err(ChatError::MalformedTicket);
                },
            };
            let ghost av = a@;
            nodes.push(a);
            proof {
                let nv2 = Seq::new(nodes@.len(), |i: int| nodes@[i]@);
                assert(nv2 =~= nv.push(av));
                assert forall|tv: TicketView|
                    tv.wf() && s@ == #[trigger] ticket_chars(tv) implies nv2 =~= tv.nodes.take(
                    j + 1,
                ) && next == 40 + addrs_bytes(tv.nodes.take(j + 1)).len() by {
                    assert(av == tv.nodes[j as int]);
                    assert(next == cur + addr_bytes(tv.nodes[j as int]).len());
                    lemma_addrs_bytes_snoc(tv.nodes, j as int);
                    assert(nv =~= tv.nodes.take(j as int));
                    assert(nv2 =~= tv.nodes.take(j + 1));
                };
                assert(b@.subrange(0, next as int) =~= topic@ + u64_bytes(count) + addrs_bytes(
                    nv2,
                )) by {
                    assert(b@.subrange(cur as int, next as int) =~= addr_bytes(av));
                    lemma_addrs_bytes_snoc(nv2, j as int);
                    assert(nv2.take(j as int) =~= nv);
                    assert(nv2.take(j + 1) =~= nv2);
                    assert(nv2[j as int] == av);
                    assert(b@.subrange(0, next as int) =~= b@.subrange(0, cur as int) + b@.subrange(
                        cur as int,
                        next as int,
                    ));
                };
            }
            cur = next;
            j += 1;
        }
        if cur != b.len() {
            proof {
                assert forall|tv: TicketView|
                    tv.wf() && s@ == #[trigger] ticket_chars(tv) implies false by {
                    assert(tv.nodes.take(total as int) =~= tv.nodes);
                    assert(cur == 40 + addrs_bytes(tv.nodes).len());
                    assert(ticket_bytes(tv).len() == b@.len());
                };
            }
            return Err(ChatError::MalformedTicket);
        }
        let t = Ticket { topic, nodes };
        proof {
            let nv = Seq::new(t.nodes@.len(), |i: int| t.nodes@[i]@);
            assert(t@.nodes == nv);
            assert(t@.wf());
            assert(t.ids_wf()) by {
                assert(forall|i: int|
                    0 <= i < t.nodes@.len() ==> (#[trigger] t.nodes@[i]@).wf());
                assert forall|i: int|
                    0 <= i < t.nodes@.len() implies (#[trigger] t.nodes@[i]).ids_wf() by {
                    assert(t.nodes@[i]@.wf());
                };
            };
            assert(b@.subrange(0, cur as int) =~= b@);
            assert(ticket_bytes(t@) =~= b@) by {
                assert(t@.nodes.len() as u64 == count);
            };
            assert(s@ =~= ticket_chars(t@)) by {
                assert(ticket_bytes(t@) == bv);
                assert(s@ =~= hex_of(bv));
            };
            assert forall|tv: TicketView|
                tv.wf() && s@ == #[trigger] ticket_chars(tv) implies t@ == tv by {
                assert(tv.nodes.take(total as int) =~= tv.nodes);
                assert(t@.nodes =~= tv.nodes);
                assert(t@.topic == tv.topic);
            };
        }
        if nodes_is_empty(&t) {
            proof {
                assert(t@.nodes.len() == 0);
                assert(s@ == ticket_chars(t@));
                assert(exists|tv: TicketView|
                    tv.wf() && tv.nodes.len() == 0 && s@ == #[trigger] ticket_chars(tv)) by {
                    assert(t@.wf() && t@.nodes.len() == 0 && s@ == ticket_chars(t@));
                };
            }
            return Err(ChatError::EmptyTicket);
        }
        Ok(t)
    }
}

/// Whether a ticket lists no seeds.
fn nodes_is_empty(t: &Ticket) -> (r: bool)
    ensures
        r == (t@.nodes.len() == 0),
{
    t.nodes.len() == 0
}

/// The seed of `t` at index `i`.
fn self_node(t: &Ticket, i: usize) -> (r: &PeerAddr)
    requires
        i < t.nodes@.len(),
    ensures
        r == t.nodes@[i as int],
{
    &t.nodes[i]
}

} // verus!

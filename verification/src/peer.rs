//! Peers: the opaque identifier the transport issues for a participant, and a
//! dialable address bundling that identifier with reachability hints.

use vstd::prelude::*;
use vstd::slice::{slice_subrange, slice_to_vec};
use vstd::utf8::encode_utf8;

use crate::hexfmt::{hex_encode, hex_of};
use crate::wire::{
    bytes_eq, lemma_prefix_bytes, lemma_split_prefix, lemma_str_framed_prefix_unique,
    lemma_u64_bytes_injective, push_string, push_u64, read_bytes, read_string, read_u64,
    str_framed, tail_from, u64_bytes,
};

verus! {

/// The length of a peer identifier on the wire, in bytes.
pub const PEER_ID_LEN: usize = 32;

/// An opaque, globally unique participant identifier, issued by the transport
/// substrate: a fixed-length byte string.
#[derive(Debug)]
pub struct PeerId {
    pub bytes: Vec<u8>,
}

impl View for PeerId {
    type V = Seq<u8>;

    open spec fn view(&self) -> Seq<u8> {
        self.bytes@
    }
}

impl PeerId {
    /// A peer identifier holds exactly `PEER_ID_LEN` bytes.
    pub open spec fn wf(&self) -> bool {
        self@.len() == PEER_ID_LEN
    }

    /// Builds an identifier from its raw bytes.
    pub fn new(bytes: Vec<u8>) -> (r: PeerId)
        requires
            bytes@.len() == PEER_ID_LEN,
        ensures
            r@ == bytes@,
            r.wf(),
    {
        PeerId { bytes }
    }

    /// Builds an identifier from raw bytes of unchecked length.
    pub fn from_bytes(bytes: Vec<u8>) -> (r: Option<PeerId>)
        ensures
            r is Some <==> bytes@.len() == PEER_ID_LEN,
            r matches Some(p) ==> p@ == bytes@ && p.wf(),
    {
        if bytes.len() == PEER_ID_LEN {
            Some(PeerId { bytes })
        } else {
            None
        }
    }

    /// The raw bytes of the identifier.
    pub fn as_bytes(&self) -> (r: &[u8])
        ensures
            r@ == self@,
    {
        self.bytes.as_slice()
    }

    /// An identical copy.
    pub fn duplicate(&self) -> (r: PeerId)
        ensures
            r@ == self@,
    {
        PeerId { bytes: slice_to_vec(self.bytes.as_slice()) }
    }

    /// Whether two identifiers name the same peer.
    pub fn same_as(&self, other: &PeerId) -> (r: bool)
        ensures
            r == (self@ == other@),
    {
        bytes_eq(self.bytes.as_slice(), other.bytes.as_slice())
    }

    /// The canonical full rendering: lowercase hexadecimal.
    pub fn to_hex(&self) -> (r: String)
        ensures
            r@ == hex_of(self@),
    {
        hex_encode(self.bytes.as_slice())
    }

    /// The short deterministic rendering used when no display name is known:
    /// the first five bytes in hexadecimal.
    pub fn short_name(&self) -> (r: String)
        requires
            self.wf(),
        ensures
            r@ == hex_of(self@.take(5)),
    {
        let pre = slice_subrange(self.bytes.as_slice(), 0, 5);
        proof {
            assert(pre@ =~= self@.take(5));
        }
        hex_encode(pre)
    }
}

/// What a peer address is, mathematically: the peer's identifier and its
/// reachability hints, each hint a character string.
pub ghost struct PeerAddrView {
    pub node_id: Seq<u8>,
    pub hints: Seq<Seq<char>>,
}

impl PeerAddrView {
    /// A well-formed address: a full-length identifier, and hints whose count
    /// and UTF-8 lengths fit the wire's length fields.
    pub open spec fn wf(self) -> bool {
        &&& self.node_id.len() == PEER_ID_LEN
        &&& self.hints.len() <= u64::MAX
        &&& forall|i: int|
            0 <= i < self.hints.len() ==> (#[trigger] encode_utf8(self.hints[i])).len()
                <= u64::MAX
    }
}

/// A dialable peer address: the peer's identifier plus enough reachability
/// hints (rendered addresses, relay information) for the transport to dial it.
#[derive(Debug)]
pub struct PeerAddr {
    pub node_id: PeerId,
    pub hints: Vec<String>,
}

impl View for PeerAddr {
    type V = PeerAddrView;

    open spec fn view(&self) -> PeerAddrView {
        PeerAddrView {
            node_id: self.node_id@,
            hints: Seq::new(self.hints@.len(), |i: int| self.hints@[i]@),
        }
    }
}

impl PeerAddr {
    /// The structural part of well-formedness that constructors establish.
    pub open spec fn ids_wf(&self) -> bool {
        self.node_id.wf()
    }

    /// Bundles an identifier with reachability hints.
    pub fn new(node_id: PeerId, hints: Vec<String>) -> (r: PeerAddr)
        requires
            node_id.wf(),
        ensures
            r@.node_id == node_id@,
            r@.hints == Seq::new(hints@.len(), |i: int| hints@[i]@),
            r.ids_wf(),
    {
        PeerAddr { node_id, hints }
    }

    /// An identical copy.
    pub fn duplicate(&self) -> (r: PeerAddr)
        ensures
            r@ == self@,
            self.ids_wf() ==> r.ids_wf(),
    {
        let mut hints: Vec<String> = Vec::new();
        let n = self.hints.len();
        let mut i: usize = 0;
        while i < n
            invariant
                n == self.hints@.len(),
                i <= n,
                hints@.len() == i,
                forall|j: int| 0 <= j < i ==> hints@[j] == self.hints@[j],
            decreases n - i,
        {
            hints.push(self.hints[i].clone());
            i += 1;
        }
        let r = PeerAddr { node_id: self.node_id.duplicate(), hints };
        proof {
            assert(r@.hints =~= self@.hints);
            assert(r@ == self@);
        }
        r
    }
}

/// The wire bytes of a hint list: each hint length-framed, in order.
pub open spec fn strs_bytes(hs: Seq<Seq<char>>) -> Seq<u8>
    decreases hs.len(),
{
    if hs.len() == 0 {
        Seq::empty()
    } else {
        str_framed(hs[0]) + strs_bytes(hs.drop_first())
    }
}

/// The wire bytes of a peer address: the identifier, the hint count, then the
/// hints.
pub open spec fn addr_bytes(a: PeerAddrView) -> Seq<u8> {
    a.node_id + u64_bytes(a.hints.len() as u64) + strs_bytes(a.hints)
}

/// Extending the encoded prefix of a hint list by one hint.
pub proof fn lemma_strs_bytes_snoc(hs: Seq<Seq<char>>, j: int)
    requires
        0 <= j < hs.len(),
    ensures
        strs_bytes(hs.take(j + 1)) =~= strs_bytes(hs.take(j)) + str_framed(hs[j]),
    decreases j,
{
    if j == 0 {
        assert(hs.take(1).len() == 1);
        assert(hs.take(1)[0] == hs[0]);
        assert(hs.take(1).drop_first() =~= Seq::<Seq<char>>::empty());
        assert(strs_bytes(Seq::<Seq<char>>::empty()) =~= Seq::<u8>::empty());
        assert(strs_bytes(hs.take(1)) == str_framed(hs.take(1)[0]) + strs_bytes(
            hs.take(1).drop_first(),
        ));
        assert(hs.take(0) =~= Seq::<Seq<char>>::empty());
        assert(strs_bytes(hs.take(j + 1)) =~= strs_bytes(hs.take(j)) + str_framed(hs[j]));
    } else {
        let t = hs.drop_first();
        lemma_strs_bytes_snoc(t, j - 1);
        assert(hs.take(j + 1)[0] == hs[0]);
        assert(hs.take(j + 1).drop_first() =~= t.take(j));
        assert(hs.take(j)[0] == hs[0]);
        assert(hs.take(j).drop_first() =~= t.take(j - 1));
        assert(t[j - 1] == hs[j]);
        assert(strs_bytes(hs.take(j + 1)) =~= str_framed(hs[0]) + strs_bytes(t.take(j)));
        assert(strs_bytes(hs.take(j)) =~= str_framed(hs[0]) + strs_bytes(t.take(j - 1)));
        assert(str_framed(hs[0]) + (strs_bytes(t.take(j - 1)) + str_framed(hs[j])) =~= (str_framed(
            hs[0],
        ) + strs_bytes(t.take(j - 1))) + str_framed(hs[j]));
        assert(strs_bytes(hs.take(j + 1)) =~= strs_bytes(hs.take(j)) + str_framed(hs[j]));
    }
}

/// The tail of a hint list's encoding starts with the next hint.
pub proof fn lemma_strs_bytes_skip(hs: Seq<Seq<char>>, j: int)
    requires
        0 <= j < hs.len(),
    ensures
        strs_bytes(hs.skip(j)) =~= str_framed(hs[j]) + strs_bytes(hs.skip(j + 1)),
{
    assert(hs.skip(j)[0] == hs[j]);
    assert(hs.skip(j).drop_first() =~= hs.skip(j + 1));
}

/// A hint list's encoding splits at any point into the encodings of its two
/// halves.
pub proof fn lemma_strs_bytes_split(hs: Seq<Seq<char>>, j: int)
    requires
        0 <= j <= hs.len(),
    ensures
        strs_bytes(hs) =~= strs_bytes(hs.take(j)) + strs_bytes(hs.skip(j)),
    decreases hs.len() - j,
{
    if j == hs.len() {
        assert(hs.take(j) =~= hs);
        assert(strs_bytes(hs.skip(j)) =~= Seq::<u8>::empty());
    } else {
        lemma_strs_bytes_split(hs, j + 1);
        lemma_strs_bytes_snoc(hs, j);
        lemma_strs_bytes_skip(hs, j);
        assert((strs_bytes(hs.take(j)) + str_framed(hs[j])) + strs_bytes(hs.skip(j + 1))
            =~= strs_bytes(hs.take(j)) + (str_framed(hs[j]) + strs_bytes(hs.skip(j + 1))));
    }
}

/// Each framed hint takes at least its eight length bytes.
pub proof fn lemma_strs_bytes_min_len(hs: Seq<Seq<char>>)
    ensures
        strs_bytes(hs).len() >= 8 * hs.len(),
    decreases hs.len(),
{
    if hs.len() > 0 {
        lemma_strs_bytes_min_len(hs.drop_first());
    }
}

/// Two hint lists of the same length framed at the same position of a stream
/// are the same list.
pub proof fn lemma_strs_bytes_prefix_unique(
    s: Seq<u8>,
    pos: int,
    h1: Seq<Seq<char>>,
    h2: Seq<Seq<char>>,
)
    requires
        0 <= pos <= s.len(),
        h1.len() == h2.len(),
        forall|i: int| 0 <= i < h1.len() ==> (#[trigger] encode_utf8(h1[i])).len() <= u64::MAX,
        forall|i: int| 0 <= i < h2.len() ==> (#[trigger] encode_utf8(h2[i])).len() <= u64::MAX,
        strs_bytes(h1).is_prefix_of(tail_from(s, pos)),
        strs_bytes(h2).is_prefix_of(tail_from(s, pos)),
    ensures
        h1 == h2,
    decreases h1.len(),
{
    if h1.len() == 0 {
        assert(h1 =~= h2);
    } else {
        assert(strs_bytes(h1) =~= str_framed(h1[0]) + strs_bytes(h1.drop_first()));
        assert(strs_bytes(h2) =~= str_framed(h2[0]) + strs_bytes(h2.drop_first()));
        lemma_split_prefix(s, pos, str_framed(h1[0]), strs_bytes(h1.drop_first()));
        lemma_split_prefix(s, pos, str_framed(h2[0]), strs_bytes(h2.drop_first()));
        lemma_str_framed_prefix_unique(s, pos, h1[0], h2[0]);
        let pos2 = pos + str_framed(h1[0]).len();
        assert(forall|i: int|
            0 <= i < h1.drop_first().len() ==> (#[trigger] encode_utf8(
                h1.drop_first()[i],
            )).len() <= u64::MAX);
        assert(forall|i: int|
            0 <= i < h2.drop_first().len() ==> (#[trigger] encode_utf8(
                h2.drop_first()[i],
            )).len() <= u64::MAX);
        lemma_strs_bytes_prefix_unique(s, pos2, h1.drop_first(), h2.drop_first());
        assert forall|i: int| 0 <= i < h1.len() implies #[trigger] h1[i] == h2[i] by {
            if i > 0 {
                assert(h1.drop_first()[i - 1] == h1[i]);
                assert(h2.drop_first()[i - 1] == h2[i]);
            }
        }
        assert(h1 =~= h2);
    }
}

/// Two addresses framed at the same position of a stream are the same
/// address.
pub proof fn lemma_addr_bytes_prefix_unique(
    s: Seq<u8>,
    pos: int,
    a1: PeerAddrView,
    a2: PeerAddrView,
)
    requires
        0 <= pos <= s.len(),
        a1.wf(),
        a2.wf(),
        addr_bytes(a1).is_prefix_of(tail_from(s, pos)),
        addr_bytes(a2).is_prefix_of(tail_from(s, pos)),
    ensures
        a1 == a2,
        addr_bytes(a1).len() == addr_bytes(a2).len(),
{
    assert(addr_bytes(a1) =~= a1.node_id + (u64_bytes(a1.hints.len() as u64) + strs_bytes(
        a1.hints,
    )));
    assert(addr_bytes(a2) =~= a2.node_id + (u64_bytes(a2.hints.len() as u64) + strs_bytes(
        a2.hints,
    )));
    lemma_split_prefix(s, pos, a1.node_id, u64_bytes(a1.hints.len() as u64) + strs_bytes(a1.hints));
    lemma_split_prefix(s, pos, a2.node_id, u64_bytes(a2.hints.len() as u64) + strs_bytes(a2.hints));
    assert(a1.node_id =~= a2.node_id) by {
        assert(a1.node_id =~= s.subrange(pos, pos + 32));
        assert(a2.node_id =~= s.subrange(pos, pos + 32));
    }
    lemma_split_prefix(s, pos + 32, u64_bytes(a1.hints.len() as u64), strs_bytes(a1.hints));
    lemma_split_prefix(s, pos + 32, u64_bytes(a2.hints.len() as u64), strs_bytes(a2.hints));
    assert(u64_bytes(a1.hints.len() as u64) =~= u64_bytes(a2.hints.len() as u64)) by {
        lemma_prefix_bytes(s, pos + 32, u64_bytes(a1.hints.len() as u64));
        lemma_prefix_bytes(s, pos + 32, u64_bytes(a2.hints.len() as u64));
    }
    lemma_u64_bytes_injective(a1.hints.len() as u64, a2.hints.len() as u64);
    lemma_strs_bytes_prefix_unique(s, pos + 40, a1.hints, a2.hints);
}

/// Appends the wire bytes of `a` to `out`.
#[verifier::loop_isolation(false)]
pub fn push_addr(out: &mut Vec<u8>, a: &PeerAddr)
    requires
        a.ids_wf(),
    ensures
        final (out)@ =~= old(out)@ + addr_bytes(a@),
        a@.wf(),
{
    let ghost base = out@;
    let mut id = slice_to_vec(a.node_id.as_bytes());
    out.append(&mut id);
    push_u64(out, a.hints.len() as u64);
    let ghost hv = a@.hints;
    let n = a.hints.len();
    let mut i: usize = 0;
    while i < n
        invariant
            n == a.hints@.len(),
            hv == a@.hints,
            hv.len() == n,
            i <= n,
            out@ =~= base + a@.node_id + u64_bytes(n as u64) + strs_bytes(hv.take(i as int)),
            forall|j: int|
                0 <= j < i ==> (#[trigger] encode_utf8(hv[j])).len() <= u64::MAX,
        decreases n - i,
    {
        let ghost before = out@;
        push_string(out, self_hint(a, i).as_str());
        proof {
            assert(hv[i as int] == a.hints@[i as int]@);
            lemma_strs_bytes_snoc(hv, i as int);
            assert(out@ =~= base + a@.node_id + u64_bytes(n as u64) + strs_bytes(
                hv.take(i + 1),
            ));
            assert(encode_utf8(hv[i as int]).len() <= u64::MAX);
        }
        i += 1;
    }
    proof {
        assert(hv.take(n as int) =~= hv);
        assert(out@ =~= base + addr_bytes(a@));
    }
}

/// The hint of `a` at index `i`.
fn self_hint(a: &PeerAddr, i: usize) -> (r: &String)
    requires
        i < a.hints@.len(),
    ensures
        r == a.hints@[i as int],
{
    &a.hints[i]
}

/// Reads one peer address at `pos`.
///
/// Succeeds exactly on the streams whose tail starts with `addr_bytes` of some
/// well-formed address, and then returns that address.
#[verifier::loop_isolation(false)]
#[verifier::rlimit(100)]
pub fn read_addr(b: &[u8], pos: usize) -> (r: Option<(PeerAddr, usize)>)
    requires
        pos <= b@.len(),
    ensures
        r matches Some((a, p2)) ==> a@.wf() && pos <= p2 <= b@.len() && b@.subrange(
            pos as int,
            p2 as int,
        ) =~= addr_bytes(a@),
        forall|av: PeerAddrView|
            av.wf() && (#[trigger] addr_bytes(av)).is_prefix_of(tail_from(b@, pos as int)) ==> (
            r matches Some((a, p2)) && a@ == av && p2 == pos + addr_bytes(av).len()),
{
    let ghost tail = tail_from(b@, pos as int);
    proof {
        assert forall|av: PeerAddrView|
            av.wf() && (#[trigger] addr_bytes(av)).is_prefix_of(tail) implies pos
            + addr_bytes(av).len() <= b@.len() && b@.subrange(pos as int, pos + 32)
            =~= av.node_id && b@.subrange(pos + 32, pos + 40) =~= u64_bytes(
            av.hints.len() as u64,
        ) && strs_bytes(av.hints).is_prefix_of(tail_from(b@, pos + 40)) by {
            assert(addr_bytes(av) =~= av.node_id + (u64_bytes(av.hints.len() as u64) + strs_bytes(
                av.hints,
            )));
            lemma_split_prefix(
                b@,
                pos as int,
                av.node_id,
                u64_bytes(av.hints.len() as u64) + strs_bytes(av.hints),
            );
            lemma_split_prefix(
                b@,
                pos + 32,
                u64_bytes(av.hints.len() as u64),
                strs_bytes(av.hints),
            );
            lemma_prefix_bytes(b@, pos + 32, u64_bytes(av.hints.len() as u64));
        };
    }
    let (id_bytes, p1) = match read_bytes(b, pos, PEER_ID_LEN) {
        Some(x) => x,
        None => {
            return None;
        },
    };
    let id = PeerId::new(id_bytes);
    let (count, p2) = match read_u64(b, p1) {
        Some(x) => x,
        None => {
            return None;
        },
    };
    proof {
        assert forall|av: PeerAddrView|
            av.wf() && (#[trigger] addr_bytes(av)).is_prefix_of(tail) implies av.node_id == id@
            && av.hints.len() as u64 == count by {
            assert(u64_bytes(av.hints.len() as u64) =~= b@.subrange(pos + 32, pos + 40));
            assert(u64_bytes(count) =~= b@.subrange(p1 as int, p1 + 8));
            assert(b@.subrange(pos + 32, pos + 40) =~= b@.subrange(p1 as int, p1 + 8));
            lemma_u64_bytes_injective(count, av.hints.len() as u64);
        };
    }
    // each framed hint takes at least eight bytes, so the count is bounded by
    // what remains
    if count > ((b.len() - p2) / 8) as u64 {
        proof {
            assert forall|av: PeerAddrView|
                av.wf() && (#[trigger] addr_bytes(av)).is_prefix_of(tail) implies false by {
                lemma_strs_bytes_min_len(av.hints);
                assert(pos + addr_bytes(av).len() <= b@.len());
            };
        }
        return None;
    }
    let total = count as usize;
    let mut hints: Vec<String> = Vec::new();
    let mut cur = p2;
    let mut j: usize = 0;
    while j < total
        invariant
            pos + 40 <= p2 <= cur <= b@.len(),
            j <= total,
            total == count,
            hints@.len() == j,
            b@.subrange(pos as int, cur as int) =~= id@ + u64_bytes(count) + strs_bytes(
                Seq::new(hints@.len(), |i: int| hints@[i]@),
            ),
            id@.len() == PEER_ID_LEN,
            forall|i: int|
                0 <= i < j ==> (#[trigger] encode_utf8(hints@[i]@)).len() <= u64::MAX,
            forall|av: PeerAddrView|
                av.wf() && (#[trigger] addr_bytes(av)).is_prefix_of(tail) ==> av.node_id == id@
                    && av.hints.len() == total && Seq::new(hints@.len(), |i: int| hints@[i]@)
                    =~= av.hints.take(j as int) && cur == pos + 40 + strs_bytes(
                    av.hints.take(j as int),
                ).len(),
        decreases total - j,
    {
        let ghost hv = Seq::new(hints@.len(), |i: int| hints@[i]@);
        proof {
            assert forall|av: PeerAddrView|
                av.wf() && (#[trigger] addr_bytes(av)).is_prefix_of(tail) implies str_framed(
                av.hints[j as int],
            ).is_prefix_of(tail_from(b@, cur as int)) && encode_utf8(av.hints[j as int]).len()
                <= u64::MAX by {
                assert(strs_bytes(av.hints).is_prefix_of(tail_from(b@, pos + 40)));
                lemma_strs_bytes_split(av.hints, j as int);
                lemma_split_prefix(
                    b@,
                    pos + 40,
                    strs_bytes(av.hints.take(j as int)),
                    strs_bytes(av.hints.skip(j as int)),
                );
                lemma_strs_bytes_skip(av.hints, j as int);
                lemma_split_prefix(
                    b@,
                    cur as int,
                    str_framed(av.hints[j as int]),
                    strs_bytes(av.hints.skip(j + 1)),
                );
            };
        }
        let (s, next) = match read_string(b, cur) {
            Some(x) => x,
            None => {
                proof {
                    assert forall|av: PeerAddrView|
                        av.wf() && (#[trigger] addr_bytes(av)).is_prefix_of(tail) implies false by {
                        assert(str_framed(av.hints[j as int]).is_prefix_of(
                            tail_from(b@, cur as int),
                        ));
                    };
                }
                return None;
            },
        };
        let ghost sv = s@;
        hints.push(s);
        proof {
            let hv2 = Seq::new(hints@.len(), |i: int| hints@[i]@);
            assert(hv2 =~= hv.push(sv));
            assert forall|av: PeerAddrView|
                av.wf() && (#[trigger] addr_bytes(av)).is_prefix_of(tail) implies hv2
                =~= av.hints.take(j + 1) && next == pos + 40 + strs_bytes(
                av.hints.take(j + 1),
            ).len() by {
                assert(sv == av.hints[j as int]);
                assert(next == cur + 8 + encode_utf8(av.hints[j as int]).len());
                lemma_strs_bytes_snoc(av.hints, j as int);
                assert(hv =~= av.hints.take(j as int));
                assert(hv2 =~= av.hints.take(j + 1));
            };
            assert(b@.subrange(pos as int, next as int) =~= id@ + u64_bytes(count) + strs_bytes(
                hv2,
            )) by {
                assert(b@.subrange(cur as int, next as int) =~= str_framed(sv));
                lemma_strs_bytes_snoc(hv2, j as int);
                assert(hv2.take(j as int) =~= hv);
                assert(hv2.take(j + 1) =~= hv2);
                assert(hv2[j as int] == sv);
                assert(b@.subrange(pos as int, next as int) =~= b@.subrange(
                    pos as int,
                    cur as int,
                ) + b@.subrange(cur as int, next as int));
            };
        }
        cur = next;
        j += 1;
    }
    let a = PeerAddr { node_id: id, hints };
    proof {
        let hv = Seq::new(a.hints@.len(), |i: int| a.hints@[i]@);
        assert(a@.hints == hv);
        assert(a@.wf());
        assert(b@.subrange(pos as int, cur as int) =~= addr_bytes(a@)) by {
            assert(a@.hints.len() as u64 == count);
        };
        assert forall|av: PeerAddrView|
            av.wf() && (#[trigger] addr_bytes(av)).is_prefix_of(tail) implies a@ == av && cur
            == pos + addr_bytes(av).len() by {
            assert(av.hints.take(total as int) =~= av.hints);
            assert(a@.hints =~= av.hints);
            assert(a@.node_id == av.node_id);
        };
    }
    Some((a, cur))
}

} // verus!

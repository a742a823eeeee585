//! Little-endian length framing shared by the ticket and message codecs.
//!
//! Every variable-length field on the wire is written as eight little-endian
//! length bytes followed by the field's bytes; character strings are framed by
//! the length of their UTF-8 encoding.

use vstd::prelude::*;
use vstd::slice::{slice_subrange, slice_to_vec};
use vstd::string::StrSliceExecFns;
use vstd::utf8::{decode_utf8, encode_utf8, valid_utf8};
use vstd::utf8::{decode_utf8_encode_utf8, encode_utf8_decode_utf8, encode_utf8_valid_utf8};

verus! {

/// The eight little-endian bytes of `n`.
pub open spec fn u64_bytes(n: u64) -> Seq<u8> {
    seq![
        (n & 0xff) as u8,
        ((n >> 8) & 0xff) as u8,
        ((n >> 16) & 0xff) as u8,
        ((n >> 24) & 0xff) as u8,
        ((n >> 32) & 0xff) as u8,
        ((n >> 40) & 0xff) as u8,
        ((n >> 48) & 0xff) as u8,
        ((n >> 56) & 0xff) as u8,
    ]
}

/// A byte string framed by its length.
pub open spec fn len_framed(b: Seq<u8>) -> Seq<u8>
    recommends
        b.len() <= u64::MAX,
{
    u64_bytes(b.len() as u64) + b
}

/// A character string framed by the length of its UTF-8 encoding.
pub open spec fn str_framed(s: Seq<char>) -> Seq<u8> {
    len_framed(encode_utf8(s))
}

/// The bytes of `s` from `pos` to its end.
pub open spec fn tail_from(s: Seq<u8>, pos: int) -> Seq<u8>
    recommends
        0 <= pos <= s.len(),
{
    s.subrange(pos, s.len() as int)
}

/// Two distinct values never share their eight little-endian bytes.
pub proof fn lemma_u64_bytes_injective(a: u64, b: u64)
    requires
        u64_bytes(a) == u64_bytes(b),
    ensures
        a == b,
{
    let sa = u64_bytes(a);
    let sb = u64_bytes(b);
    assert(sa[0] == sb[0] && sa[1] == sb[1] && sa[2] == sb[2] && sa[3] == sb[3] && sa[4] == sb[4]
        && sa[5] == sb[5] && sa[6] == sb[6] && sa[7] == sb[7]);
    assert((a & 0xff) as u8 == (b & 0xff) as u8 && ((a >> 8) & 0xff) as u8 == ((b >> 8)
        & 0xff) as u8 && ((a >> 16) & 0xff) as u8 == ((b >> 16) & 0xff) as u8 && ((a >> 24)
        & 0xff) as u8 == ((b >> 24) & 0xff) as u8 && ((a >> 32) & 0xff) as u8 == ((b >> 32)
        & 0xff) as u8 && ((a >> 40) & 0xff) as u8 == ((b >> 40) & 0xff) as u8 && ((a >> 48)
        & 0xff) as u8 == ((b >> 48) & 0xff) as u8 && ((a >> 56) & 0xff) as u8 == ((b >> 56)
        & 0xff) as u8 ==> a == b) by (bit_vector);
}

/// A prefix of a stream's tail pins down the bytes it covers.
pub proof fn lemma_prefix_bytes(s: Seq<u8>, pos: int, x: Seq<u8>)
    requires
        0 <= pos <= s.len(),
        x.is_prefix_of(tail_from(s, pos)),
    ensures
        pos + x.len() <= s.len(),
        s.subrange(pos, pos + x.len()) =~= x,
{
    let tail = tail_from(s, pos);
    assert(x =~= tail.subrange(0, x.len() as int));
    assert forall|i: int| 0 <= i < x.len() implies s.subrange(pos, pos + x.len())[i]
        == #[trigger] x[i] by {
        assert(tail.subrange(0, x.len() as int)[i] == tail[i]);
        assert(tail[i] == s[pos + i]);
        assert(s.subrange(pos, pos + x.len())[i] == s[pos + i]);
    }
}

/// Splitting a prefix of a stream's tail: the first part covers its own bytes
/// and the second part is a prefix of the remaining tail.
pub proof fn lemma_split_prefix(s: Seq<u8>, pos: int, x: Seq<u8>, y: Seq<u8>)
    requires
        0 <= pos <= s.len(),
        (x + y).is_prefix_of(tail_from(s, pos)),
    ensures
        pos + x.len() + y.len() <= s.len(),
        s.subrange(pos, pos + x.len()) =~= x,
        y.is_prefix_of(tail_from(s, pos + x.len())),
{
    let tail = tail_from(s, pos);
    let xy = x + y;
    assert(xy =~= tail.subrange(0, xy.len() as int));
    assert(x.is_prefix_of(tail)) by {
        assert forall|i: int| 0 <= i < x.len() implies tail.subrange(0, x.len() as int)[i]
            == #[trigger] x[i] by {
            assert(xy[i] == x[i]);
            assert(tail.subrange(0, xy.len() as int)[i] == tail[i]);
            assert(tail.subrange(0, x.len() as int)[i] == tail[i]);
        }
        assert(x =~= tail.subrange(0, x.len() as int));
    }
    lemma_prefix_bytes(s, pos, x);
    let tail2 = tail_from(s, pos + x.len());
    assert forall|i: int| 0 <= i < y.len() implies tail2.subrange(0, y.len() as int)[i]
        == #[trigger] y[i] by {
        assert(xy[x.len() + i] == y[i]);
        assert(tail.subrange(0, xy.len() as int)[x.len() + i] == tail[x.len() + i]);
        assert(tail[x.len() + i] == s[pos + x.len() + i]);
        assert(tail2[i] == s[pos + x.len() + i]);
        assert(tail2.subrange(0, y.len() as int)[i] == tail2[i]);
    }
    assert(y =~= tail2.subrange(0, y.len() as int));
}

/// A length-framed prefix of a stream's tail pins down the eight length bytes
/// and the data bytes that follow them.
pub proof fn lemma_framed_prefix(s: Seq<u8>, pos: int, d: Seq<u8>)
    requires
        0 <= pos <= s.len(),
        d.len() <= u64::MAX,
        len_framed(d).is_prefix_of(tail_from(s, pos)),
    ensures
        pos + 8 + d.len() <= s.len(),
        u64_bytes(d.len() as u64) =~= s.subrange(pos, pos + 8),
        d =~= s.subrange(pos + 8, pos + 8 + d.len()),
{
    let tail = tail_from(s, pos);
    let lf = len_framed(d);
    assert(lf.len() == 8 + d.len());
    assert(lf.len() <= tail.len());
    assert(lf =~= tail.subrange(0, lf.len() as int));
    assert forall|i: int| 0 <= i < 8 implies u64_bytes(d.len() as u64)[i] == #[trigger] s.subrange(
        pos,
        pos + 8,
    )[i] by {
        assert(lf[i] == u64_bytes(d.len() as u64)[i]);
        assert(tail.subrange(0, lf.len() as int)[i] == tail[i]);
        assert(tail[i] == s[pos + i]);
        assert(s.subrange(pos, pos + 8)[i] == s[pos + i]);
    }
    assert forall|i: int| 0 <= i < d.len() implies #[trigger] d[i] == s.subrange(
        pos + 8,
        pos + 8 + d.len(),
    )[i] by {
        assert(lf[8 + i] == d[i]);
        assert(tail.subrange(0, lf.len() as int)[8 + i] == tail[8 + i]);
        assert(tail[8 + i] == s[pos + 8 + i]);
        assert(s.subrange(pos + 8, pos + 8 + d.len())[i] == s[pos + 8 + i]);
    }
}

/// Appends the eight little-endian bytes of `n` to `out`.
pub fn push_u64(out: &mut Vec<u8>, n: u64)
    ensures
        final (out)@ == old(out)@ + u64_bytes(n),
{
    proof {
        assert(n & 0xff < 256 && (n >> 8) & 0xff < 256 && (n >> 16) & 0xff < 256 && (n >> 24)
            & 0xff < 256 && (n >> 32) & 0xff < 256 && (n >> 40) & 0xff < 256 && (n >> 48) & 0xff
            < 256 && (n >> 56) & 0xff < 256) by (bit_vector);
    }
    out.push((n & 0xff) as u8);
    out.push(((n >> 8) & 0xff) as u8);
    out.push(((n >> 16) & 0xff) as u8);
    out.push(((n >> 24) & 0xff) as u8);
    out.push(((n >> 32) & 0xff) as u8);
    out.push(((n >> 40) & 0xff) as u8);
    out.push(((n >> 48) & 0xff) as u8);
    out.push(((n >> 56) & 0xff) as u8);
    proof {
        assert(out@ =~= old(out)@ + u64_bytes(n));
    }
}

/// Reads eight little-endian bytes at `pos`; fails exactly when fewer than
/// eight bytes remain.
pub fn read_u64(b: &[u8], pos: usize) -> (r: Option<(u64, usize)>)
    requires
        pos <= b@.len(),
    ensures
        r is Some <==> pos + 8 <= b@.len(),
        r matches Some((v, p2)) ==> p2 == pos + 8 && u64_bytes(v) =~= b@.subrange(
            pos as int,
            pos + 8,
        ),
{
    if b.len() - pos < 8 {
        return None;
    }
    let x0 = *slice_index_get_u8(b, pos);
    let x1 = *slice_index_get_u8(b, pos + 1);
    let x2 = *slice_index_get_u8(b, pos + 2);
    let x3 = *slice_index_get_u8(b, pos + 3);
    let x4 = *slice_index_get_u8(b, pos + 4);
    let x5 = *slice_index_get_u8(b, pos + 5);
    let x6 = *slice_index_get_u8(b, pos + 6);
    let x7 = *slice_index_get_u8(b, pos + 7);
    let v: u64 = (x0 as u64) | ((x1 as u64) << 8) | ((x2 as u64) << 16) | ((x3 as u64) << 24) | ((
    x4 as u64) << 32) | ((x5 as u64) << 40) | ((x6 as u64) << 48) | ((x7 as u64) << 56);
    proof {
        let n: u64 = v;
        assert(n == (x0 as u64) | ((x1 as u64) << 8) | ((x2 as u64) << 16) | ((x3 as u64) << 24)
            | ((x4 as u64) << 32) | ((x5 as u64) << 40) | ((x6 as u64) << 48) | ((x7 as u64) << 56)
            ==> (n & 0xff) as u8 == x0 && ((n >> 8) & 0xff) as u8 == x1 && ((n >> 16)
            & 0xff) as u8 == x2 && ((n >> 24) & 0xff) as u8 == x3 && ((n >> 32) & 0xff) as u8 == x4
            && ((n >> 40) & 0xff) as u8 == x5 && ((n >> 48) & 0xff) as u8 == x6 && ((n >> 56)
            & 0xff) as u8 == x7) by (bit_vector);
    }
    Some((v, pos + 8))
}

/// Reads a `u8` out of a slice; a named wrapper around indexing so that the
/// byte's relation to the view is explicit.
fn slice_index_get_u8(b: &[u8], i: usize) -> (r: &u8)
    requires
        i < b@.len(),
    ensures
        *r == b@[i as int],
{
    vstd::slice::slice_index_get(b, i)
}

/// Copies the `n` bytes at `pos`; fails exactly when fewer than `n` remain.
pub fn read_bytes(b: &[u8], pos: usize, n: usize) -> (r: Option<(Vec<u8>, usize)>)
    requires
        pos <= b@.len(),
    ensures
        r is Some <==> pos + n <= b@.len(),
        r matches Some((v, p2)) ==> p2 == pos + n && v@ =~= b@.subrange(pos as int, pos + n),
{
    if b.len() - pos < n {
        return None;
    }
    let v = slice_to_vec(slice_subrange(b, pos, pos + n));
    Some((v, pos + n))
}

/// Reads a length-framed byte string at `pos`.
///
/// Succeeds exactly on the streams whose tail starts with `len_framed` of some
/// byte string, and then returns that byte string.
pub fn read_framed(b: &[u8], pos: usize) -> (r: Option<(Vec<u8>, usize)>)
    requires
        pos <= b@.len(),
    ensures
        r matches Some((v, p2)) ==> pos <= p2 <= b@.len() && p2 == pos + 8 + v@.len() && b@
            .subrange(pos as int, p2 as int) =~= len_framed(v@),
        forall|d: Seq<u8>|
            d.len() <= u64::MAX && (#[trigger] len_framed(d)).is_prefix_of(tail_from(b@, pos as int))
                ==> (r matches Some((v, p2)) && v@ == d && p2 == pos + 8 + d.len()),
{
    let ghost tail = tail_from(b@, pos as int);
    match read_u64(b, pos) {
        None => {
            proof {
                assert forall|d: Seq<u8>|
                    d.len() <= u64::MAX && (#[trigger] len_framed(d)).is_prefix_of(tail)
                        implies false by {
                    assert(len_framed(d).len() >= 8);
                    assert(tail.len() >= 8);
                };
            }
            None
        },
        Some((len, p1)) => {
            if len > (b.len() - p1) as u64 {
                proof {
                    assert forall|d: Seq<u8>|
                        d.len() <= u64::MAX && (#[trigger] len_framed(d)).is_prefix_of(tail)
                            implies false by {
                        lemma_framed_prefix(b@, pos as int, d);
                        assert(u64_bytes(len) =~= b@.subrange(pos as int, pos + 8));
                        lemma_u64_bytes_injective(len, d.len() as u64);
                    };
                }
                None
            } else {
                let n = len as usize;
                match read_bytes(b, p1, n) {
                    None => {
                        proof {
                            assert(p1 + n <= b@.len());
                        }
                        None
                    },
                    Some((v, p2)) => {
                        proof {
                            assert(b@.subrange(pos as int, p2 as int) =~= len_framed(v@));
                            assert forall|d: Seq<u8>|
                                d.len() <= u64::MAX && (#[trigger] len_framed(d)).is_prefix_of(
                                    tail,
                                ) implies v@ == d && p2 == pos + 8 + d.len() by {
                                lemma_framed_prefix(b@, pos as int, d);
                                assert(u64_bytes(len) =~= b@.subrange(pos as int, pos + 8));
                                lemma_u64_bytes_injective(len, d.len() as u64);
                                assert(v@ =~= d);
                            };
                        }
                        Some((v, p2))
                    },
                }
            }
        },
    }
}

/// Relies on `String::from_utf8`: it succeeds exactly on valid UTF-8 input and
/// returns the string those bytes encode.
#[verifier::external_body]
pub fn bytes_to_string(v: Vec<u8>) -> (r: Option<String>)
    ensures
        r is Some <==> valid_utf8(v@),
        r matches Some(s) ==> s@ == decode_utf8(v@),
{
    match String::from_utf8(v) {
        Ok(s) => Some(s),
        Err(_) => None,
    }
}

/// Reads a length-framed UTF-8 string at `pos`.
///
/// Succeeds exactly on the streams whose tail starts with `str_framed` of some
/// character string, and then returns that string.
pub fn read_string(b: &[u8], pos: usize) -> (r: Option<(String, usize)>)
    requires
        pos <= b@.len(),
    ensures
        r matches Some((s, p2)) ==> pos <= p2 <= b@.len() && p2 == pos + 8 + encode_utf8(s@).len()
            && b@.subrange(pos as int, p2 as int) =~= str_framed(s@),
        forall|cs: Seq<char>|
            encode_utf8(cs).len() <= u64::MAX && (#[trigger] str_framed(cs)).is_prefix_of(
                tail_from(b@, pos as int),
            ) ==> (r matches Some((s, p2)) && s@ == cs && p2 == pos + 8 + encode_utf8(cs).len()),
{
    let ghost tail = tail_from(b@, pos as int);
    match read_framed(b, pos) {
        None => {
            proof {
                assert forall|cs: Seq<char>|
                    encode_utf8(cs).len() <= u64::MAX && (#[trigger] str_framed(cs)).is_prefix_of(
                        tail,
                    ) implies false by {
                    assert(len_framed(encode_utf8(cs)).is_prefix_of(tail));
                };
            }
            None
        },
        Some((bytes, p2)) => {
            let ghost bv = bytes@;
            match bytes_to_string(bytes) {
                None => {
                    proof {
                        assert forall|cs: Seq<char>|
                            encode_utf8(cs).len() <= u64::MAX && (
                            #[trigger] str_framed(cs)).is_prefix_of(tail) implies false by {
                            assert(len_framed(encode_utf8(cs)).is_prefix_of(tail));
                            assert(bv == encode_utf8(cs));
                            encode_utf8_valid_utf8(cs);
                        };
                    }
                    None
                },
                Some(s) => {
                    proof {
                        decode_utf8_encode_utf8(bv);
                        assert(encode_utf8(s@) == bv);
                        assert forall|cs: Seq<char>|
                            encode_utf8(cs).len() <= u64::MAX && (
                            #[trigger] str_framed(cs)).is_prefix_of(tail) implies s@ == cs && p2
                            == pos + 8 + encode_utf8(cs).len() by {
                            assert(len_framed(encode_utf8(cs)).is_prefix_of(tail));
                            assert(bv == encode_utf8(cs));
                            encode_utf8_decode_utf8(cs);
                        };
                    }
                    Some((s, p2))
                },
            }
        },
    }
}

/// Two framed strings starting at the same position of a stream are the same
/// string.
pub proof fn lemma_str_framed_prefix_unique(s: Seq<u8>, pos: int, a: Seq<char>, b: Seq<char>)
    requires
        0 <= pos <= s.len(),
        encode_utf8(a).len() <= u64::MAX,
        encode_utf8(b).len() <= u64::MAX,
        str_framed(a).is_prefix_of(tail_from(s, pos)),
        str_framed(b).is_prefix_of(tail_from(s, pos)),
    ensures
        a == b,
{
    lemma_framed_prefix(s, pos, encode_utf8(a));
    lemma_framed_prefix(s, pos, encode_utf8(b));
    lemma_u64_bytes_injective(encode_utf8(a).len() as u64, encode_utf8(b).len() as u64);
    assert(encode_utf8(a) =~= encode_utf8(b));
    encode_utf8_decode_utf8(a);
    encode_utf8_decode_utf8(b);
}

/// Appends a length-framed byte string to `out`.
pub fn push_framed(out: &mut Vec<u8>, data: Vec<u8>)
    ensures
        final (out)@ =~= old(out)@ + len_framed(data@),
        data@.len() <= u64::MAX,
{
    let ghost d = data@;
    let len: usize = data.len();
    push_u64(out, len as u64);
    let mut tail = data;
    out.append(&mut tail);
    proof {
        assert(out@ =~= old(out)@ + len_framed(d));
    }
}

/// Appends a length-framed UTF-8 string to `out`.
pub fn push_string(out: &mut Vec<u8>, s: &str)
    ensures
        final (out)@ =~= old(out)@ + str_framed(s@),
        encode_utf8(s@).len() <= u64::MAX,
{
    let bytes = s.as_bytes_vec();
    push_framed(out, bytes);
}

/// Whether two byte slices hold the same bytes.
pub fn bytes_eq(a: &[u8], b: &[u8]) -> (r: bool)
    ensures
        r == (a@ == b@),
{
    if a.len() != b.len() {
        proof {
            assert(a@.len() != b@.len());
        }
        return false;
    }
    let n = a.len();
    let mut i: usize = 0;
    while i < n
        invariant
            n == a@.len() == b@.len(),
            i <= n,
            forall|j: int| 0 <= j < i ==> a@[j] == b@[j],
        decreases n - i,
    {
        if *slice_index_get_u8(a, i) != *slice_index_get_u8(b, i) {
            return false;
        }
        i += 1;
    }
    proof {
        assert(a@ =~= b@);
    }
    true
}

} // verus!

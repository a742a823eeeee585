//! Lowercase hexadecimal rendering of byte strings.
//!
//! The ticket codec shares a room invitation as text; hexadecimal keeps the
//! token free of whitespace and control characters, and every byte string has
//! exactly one rendering.

use vstd::prelude::*;
use vstd::string::{StrSliceExecFns, StringExecFns};

verus! {

/// The lowercase hexadecimal digit for `d`.
pub open spec fn hex_char(d: int) -> char
    recommends
        0 <= d < 16,
{
    if d == 0 {
        '0'
    } else if d == 1 {
        '1'
    } else if d == 2 {
        '2'
    } else if d == 3 {
        '3'
    } else if d == 4 {
        '4'
    } else if d == 5 {
        '5'
    } else if d == 6 {
        '6'
    } else if d == 7 {
        '7'
    } else if d == 8 {
        '8'
    } else if d == 9 {
        '9'
    } else if d == 10 {
        'a'
    } else if d == 11 {
        'b'
    } else if d == 12 {
        'c'
    } else if d == 13 {
        'd'
    } else if d == 14 {
        'e'
    } else {
        'f'
    }
}

/// The hexadecimal rendering of a byte string: two digits per byte, high
/// nibble first.
pub open spec fn hex_of(b: Seq<u8>) -> Seq<char>
    decreases b.len(),
{
    if b.len() == 0 {
        Seq::empty()
    } else {
        hex_of(b.drop_last()) + seq![
            hex_char(b.last() as int / 16),
            hex_char(b.last() as int % 16),
        ]
    }
}

/// The rendering is twice as long as the bytes.
pub proof fn lemma_hex_of_len(b: Seq<u8>)
    ensures
        hex_of(b).len() == 2 * b.len(),
    decreases b.len(),
{
    if b.len() > 0 {
        lemma_hex_of_len(b.drop_last());
    }
}

/// The two digits at position `2 * k` render the byte at position `k`.
pub proof fn lemma_hex_of_index(b: Seq<u8>, k: int)
    requires
        0 <= k < b.len(),
    ensures
        hex_of(b)[2 * k] == hex_char(b[k] as int / 16),
        hex_of(b)[2 * k + 1] == hex_char(b[k] as int % 16),
    decreases b.len(),
{
    lemma_hex_of_len(b);
    lemma_hex_of_len(b.drop_last());
    if k < b.len() - 1 {
        lemma_hex_of_index(b.drop_last(), k);
    }
}

/// Distinct digits render as distinct characters.
pub proof fn lemma_hex_char_injective(a: int, b: int)
    requires
        0 <= a < 16,
        0 <= b < 16,
        hex_char(a) == hex_char(b),
    ensures
        a == b,
{
}

/// Two byte strings with the same rendering are the same.
pub proof fn lemma_hex_of_injective(a: Seq<u8>, b: Seq<u8>)
    requires
        hex_of(a) == hex_of(b),
    ensures
        a == b,
{
    lemma_hex_of_len(a);
    lemma_hex_of_len(b);
    assert forall|k: int| 0 <= k < a.len() implies a[k] == b[k] by {
        lemma_hex_of_index(a, k);
        lemma_hex_of_index(b, k);
        lemma_hex_char_injective(a[k] as int / 16, b[k] as int / 16);
        lemma_hex_char_injective(a[k] as int % 16, b[k] as int % 16);
    }
    assert(a =~= b);
}

/// A one-character string holding the digit for `d`.
fn digit_str(d: u8) -> (r: &'static str)
    requires
        d < 16,
    ensures
        r@ =~= seq![hex_char(d as int)],
{
    proof {
        reveal_strlit("0");
        reveal_strlit("1");
        reveal_strlit("2");
        reveal_strlit("3");
        reveal_strlit("4");
        reveal_strlit("5");
        reveal_strlit("6");
        reveal_strlit("7");
        reveal_strlit("8");
        reveal_strlit("9");
        reveal_strlit("a");
        reveal_strlit("b");
        reveal_strlit("c");
        reveal_strlit("d");
        reveal_strlit("e");
        reveal_strlit("f");
    }
    match d {
        0 => "0",
        1 => "1",
        2 => "2",
        3 => "3",
        4 => "4",
        5 => "5",
        6 => "6",
        7 => "7",
        8 => "8",
        9 => "9",
        10 => "a",
        11 => "b",
        12 => "c",
        13 => "d",
        14 => "e",
        _ => "f",
    }
}

/// The digit value of `c`, if `c` is a lowercase hexadecimal digit.
fn digit_val(c: char) -> (r: Option<u8>)
    ensures
        r matches Some(d) ==> d < 16 && hex_char(d as int) == c,
        r is None ==> forall|d: int| 0 <= d < 16 ==> hex_char(d) != c,
{
    match c {
        '0' => Some(0),
        '1' => Some(1),
        '2' => Some(2),
        '3' => Some(3),
        '4' => Some(4),
        '5' => Some(5),
        '6' => Some(6),
        '7' => Some(7),
        '8' => Some(8),
        '9' => Some(9),
        'a' => Some(10),
        'b' => Some(11),
        'c' => Some(12),
        'd' => Some(13),
        'e' => Some(14),
        'f' => Some(15),
        _ => None,
    }
}

/// Renders `b` in lowercase hexadecimal.
pub fn hex_encode(b: &[u8]) -> (r: String)
    ensures
        r@ =~= hex_of(b@),
{
    let n = b.len();
    let mut r = String::new();
    let mut i: usize = 0;
    while i < n
        invariant
            n == b@.len(),
            i <= n,
            r@ =~= hex_of(b@.take(i as int)),
        decreases n - i,
    {
        let byte = *vstd::slice::slice_index_get(b, i);
        r.append(digit_str(byte / 16));
        r.append(digit_str(byte % 16));
        proof {
            assert(b@.take(i + 1).drop_last() =~= b@.take(i as int));
            assert(b@.take(i + 1).last() == b@[i as int]);
            assert(r@ =~= hex_of(b@.take(i + 1)));
        }
        i += 1;
    }
    proof {
        assert(b@.take(n as int) =~= b@);
    }
    r
}

/// Reads a lowercase hexadecimal rendering back into bytes.
///
/// Succeeds exactly on the strings that `hex_of` produces, and returns the one
/// byte string that renders as `s`.
pub fn hex_decode(s: &str) -> (r: Option<Vec<u8>>)
    ensures
        r matches Some(v) ==> s@ =~= hex_of(v@),
        forall|bs: Seq<u8>| s@ == hex_of(bs) ==> (r matches Some(v) && v@ == bs),
{
    let n = s.unicode_len();
    if n % 2 != 0 {
        proof {
            assert forall|bs: Seq<u8>| s@ == hex_of(bs) implies false by {
                lemma_hex_of_len(bs);
            };
        }
        return None;
    }
    let half = n / 2;
    let mut v: Vec<u8> = Vec::new();
    let mut k: usize = 0;
    while k < half
        invariant
            n == s@.len(),
            n % 2 == 0,
            half == n / 2,
            k <= half,
            v@.len() == k,
            hex_of(v@) =~= s@.subrange(0, 2 * k),
        decreases half - k,
    {
        let c1 = s.get_char(2 * k);
        let c2 = s.get_char(2 * k + 1);
        let d1 = match digit_val(c1) {
            Some(d) => d,
            None => {
                proof {
                    assert forall|bs: Seq<u8>| s@ == hex_of(bs) implies false by {
                        lemma_hex_of_len(bs);
                        lemma_hex_of_index(bs, k as int);
                    };
                }
                return None;
            },
        };
        let d2 = match digit_val(c2) {
            Some(d) => d,
            None => {
                proof {
                    assert forall|bs: Seq<u8>| s@ == hex_of(bs) implies false by {
                        lemma_hex_of_len(bs);
                        lemma_hex_of_index(bs, k as int);
                    };
                }
                return None;
            },
        };
        let byte = 16 * d1 + d2;
        let ghost prev = v@;
        v.push(byte);
        proof {
            assert(v@.drop_last() =~= prev);
            assert(v@.last() == byte);
            assert(hex_of(v@) == hex_of(prev) + seq![
                hex_char(byte as int / 16),
                hex_char(byte as int % 16),
            ]);
            assert(byte as int / 16 == d1 as int && byte as int % 16 == d2 as int);
            assert(hex_char(d1 as int) == c1 && hex_char(d2 as int) == c2);
            assert(c1 == s@[2 * k] && c2 == s@[2 * k + 1]);
            assert(hex_of(v@) =~= s@.subrange(0, 2 * (k + 1)));
        }
        k += 1;
    }
    proof {
        assert(s@.subrange(0, 2 * (half as int)) =~= s@);
        assert forall|bs: Seq<u8>| s@ == hex_of(bs) implies v@ == bs by {
            lemma_hex_of_injective(v@, bs);
        };
    }
    Some(v)
}

} // verus!

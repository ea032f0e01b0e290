//! Percent-encoding of request parameter values as the signature scheme
//! requires it: every byte outside the ASCII alphanumerics is written as
//! `%XX` with uppercase hex digits.

use vstd::prelude::*;
use crate::text::{spec_is_alnum, spec_hex_digit_upper, is_alnum_byte};

verus! {

/// How one byte is encoded.
pub open spec fn spec_encode_byte(b: u8) -> Seq<u8> {
    if spec_is_alnum(b) {
        seq![b]
    } else {
        seq![37u8, spec_hex_digit_upper(b / 16), spec_hex_digit_upper(b % 16)]
    }
}

/// The percent-encoding of a byte string.
pub open spec fn spec_percent_encode(s: Seq<u8>) -> Seq<u8>
    decreases s.len(),
{
    if s.len() == 0 {
        Seq::<u8>::empty()
    } else {
        spec_percent_encode(s.drop_last()) + spec_encode_byte(s.last())
    }
}

/// The value of a hex digit byte in either case, or `None`.
pub open spec fn spec_hex_value(b: u8) -> Option<u8> {
    if 48 <= b <= 57 {
        Some((b - 48) as u8)
    } else if 97 <= b <= 102 {
        Some((b - 87) as u8)
    } else if 65 <= b <= 70 {
        Some((b - 55) as u8)
    } else {
        None
    }
}

/// The percent-decoding of a byte string: a `%` followed by two hex
/// digits becomes one byte, everything else passes through unchanged.
pub open spec fn spec_percent_decode(s: Seq<u8>) -> Seq<u8>
    decreases s.len(),
{
    if s.len() == 0 {
        Seq::<u8>::empty()
    } else if s[0] == 37 && s.len() >= 3 && spec_hex_value(s[1]) is Some && spec_hex_value(
        s[2],
    ) is Some {
        seq![(spec_hex_value(s[1]).unwrap() * 16 + spec_hex_value(s[2]).unwrap()) as u8]
            + spec_percent_decode(s.skip(3))
    } else {
        seq![s[0]] + spec_percent_decode(s.skip(1))
    }
}

/// Percent-encodes a byte string.
pub fn percent_encode(s: &Vec<u8>) -> (r: Vec<u8>)
    ensures
        r@ == spec_percent_encode(s@),
{
    let mut r: Vec<u8> = Vec::new();
    let mut j: usize = 0;
    proof {
        assert(s@.take(0int) =~= Seq::<u8>::empty());
    }
    while j < s.len()
        invariant
            j <= s@.len(),
            r@ == spec_percent_encode(s@.take(j as int)),
        decreases s@.len() - j,
    {
        let b = s[j];
        if is_alnum_byte(b) {
            r.push(b);
        } else {
            let hi = b / 16;
            let lo = b % 16;
            r.push(37);
            r.push(if hi < 10 { 48 + hi } else { 55 + hi });
            r.push(if lo < 10 { 48 + lo } else { 55 + lo });
        }
        proof {
            let pre = s@.take(j as int + 1);
            assert(pre.drop_last() =~= s@.take(j as int));
            assert(pre.last() == b);
            assert(r@ =~= spec_percent_encode(pre));
        }
        j = j + 1;
    }
    proof {
        assert(s@.take(s@.len() as int) =~= s@);
    }
    r
}

/// The runtime counterpart of `spec_hex_value`.
fn hex_value(b: u8) -> (r: Option<u8>)
    ensures
        r == spec_hex_value(b),
{
    if 48 <= b && b <= 57 {
        Some(b - 48)
    } else if 97 <= b && b <= 102 {
        Some(b - 87)
    } else if 65 <= b && b <= 70 {
        Some(b - 55)
    } else {
        None
    }
}

/// Percent-decodes a byte string.
pub fn percent_decode(s: &Vec<u8>) -> (r: Vec<u8>)
    ensures
        r@ == spec_percent_decode(s@),
{
    let mut r: Vec<u8> = Vec::new();
    let mut j: usize = 0;
    proof {
        assert(s@.skip(0int) =~= s@);
        assert(r@ + spec_percent_decode(s@) =~= spec_percent_decode(s@));
    }
    while j < s.len()
        invariant
            j <= s@.len(),
            spec_percent_decode(s@) == r@ + spec_percent_decode(s@.skip(j as int)),
        decreases s@.len() - j,
    {
        let ghost rest = s@.skip(j as int);
        proof {
            assert(rest[0] == s@[j as int]);
            assert(rest.len() == s@.len() - j);
        }
        let b = s[j];
        if b == 37 && s.len() - j > 2 {
            let h1 = hex_value(s[j + 1]);
            let h2 = hex_value(s[j + 2]);
            proof {
                assert(rest[1] == s@[j as int + 1]);
                assert(rest[2] == s@[j as int + 2]);
            }
            match (h1, h2) {
                (Some(v1), Some(v2)) => {
                    r.push(v1 * 16 + v2);
                    proof {
                        assert(rest.skip(3) =~= s@.skip(j as int + 3));
                        assert(spec_percent_decode(rest) == seq![(v1 * 16 + v2) as u8]
                            + spec_percent_decode(s@.skip(j as int + 3)));
                        assert(r@ + spec_percent_decode(s@.skip(j as int + 3))
                            =~= r@.drop_last() + spec_percent_decode(rest));
                    }
                    j = j + 3;
                },
                _ => {
                    r.push(b);
                    proof {
                        assert(rest.skip(1) =~= s@.skip(j as int + 1));
                        assert(r@ + spec_percent_decode(s@.skip(j as int + 1))
                            =~= r@.drop_last() + spec_percent_decode(rest));
                    }
                    j = j + 1;
                },
            }
        } else {
            proof {
                if b == 37 {
                    assert(rest.len() < 3);
                }
            }
            r.push(b);
            proof {
                assert(rest.skip(1) =~= s@.skip(j as int + 1));
                assert(r@ + spec_percent_decode(s@.skip(j as int + 1))
                    =~= r@.drop_last() + spec_percent_decode(rest));
            }
            j = j + 1;
        }
    }
    proof {
        assert(s@.skip(s@.len() as int) =~= Seq::<u8>::empty());
        assert(r@ =~= r@ + Seq::<u8>::empty());
    }
    r
}

/// Encoding splits over concatenation.
pub proof fn lemma_encode_append(b1: Seq<u8>, b2: Seq<u8>)
    ensures
        spec_percent_encode(b1 + b2) == spec_percent_encode(b1) + spec_percent_encode(b2),
    decreases b2.len(),
{
    if b2.len() == 0 {
        assert(b1 + b2 =~= b1);
        assert(spec_percent_encode(b1) + spec_percent_encode(b2) =~= spec_percent_encode(b1));
    } else {
        lemma_encode_append(b1, b2.drop_last());
        assert((b1 + b2).drop_last() =~= b1 + b2.drop_last());
        assert((b1 + b2).last() == b2.last());
        assert(spec_percent_encode(b1) + spec_percent_encode(b2) =~= spec_percent_encode(b1)
            + spec_percent_encode(b2.drop_last()) + spec_encode_byte(b2.last()));
    }
}

/// Encoding one byte and reading it back yields that byte again.
proof fn lemma_decode_byte(b: u8, rest: Seq<u8>)
    ensures
        spec_percent_decode(spec_encode_byte(b) + rest) == seq![b] + spec_percent_decode(rest),
{
    let s = spec_encode_byte(b) + rest;
    if spec_is_alnum(b) {
        assert(s[0] == b && b != 37);
        assert(s.skip(1) =~= rest);
    } else {
        assert(s[0] == 37);
        assert(s[1] == spec_hex_digit_upper(b / 16));
        assert(s[2] == spec_hex_digit_upper(b % 16));
        assert(spec_hex_value(s[1]) == Some((b / 16) as u8));
        assert(spec_hex_value(s[2]) == Some((b % 16) as u8));
        assert(s.skip(3) =~= rest);
    }
}

/// Decoding undoes encoding on every input, not only on safe ones.
pub proof fn lemma_percent_decode_encode(s: Seq<u8>)
    ensures
        spec_percent_decode(spec_percent_encode(s)) == s,
    decreases s.len(),
{
    if s.len() == 0 {
        assert(spec_percent_decode(spec_percent_encode(s)) =~= s);
    } else {
        let head = seq![s[0]];
        let tail = s.drop_first();
        assert(s =~= head + tail);
        lemma_encode_append(head, tail);
        assert(head.drop_last() =~= Seq::<u8>::empty());
        assert(spec_percent_encode(head) == spec_percent_encode(head.drop_last())
            + spec_encode_byte(s[0]));
        assert(spec_percent_encode(head) =~= spec_encode_byte(s[0]));
        lemma_decode_byte(s[0], spec_percent_encode(tail));
        lemma_percent_decode_encode(tail);
        assert(seq![s[0]] + tail =~= s);
    }
}

/// On a string of ASCII alphanumerics, encoding changes nothing.
pub proof fn lemma_encode_alnum_identity(s: Seq<u8>)
    requires
        forall|i: int| 0 <= i < s.len() ==> spec_is_alnum(#[trigger] s[i]),
    ensures
        spec_percent_encode(s) == s,
    decreases s.len(),
{
    if s.len() == 0 {
        assert(spec_percent_encode(s) =~= s);
    } else {
        lemma_encode_alnum_identity(s.drop_last());
        assert(spec_percent_encode(s) =~= s.drop_last().push(s.last()));
        assert(s.drop_last().push(s.last()) =~= s);
    }
}

/// On a string without `%`, decoding changes nothing.
pub proof fn lemma_decode_no_escape_identity(s: Seq<u8>)
    requires
        forall|i: int| 0 <= i < s.len() ==> #[trigger] s[i] != 37,
    ensures
        spec_percent_decode(s) == s,
    decreases s.len(),
{
    if s.len() == 0 {
        assert(spec_percent_decode(s) =~= s);
    } else {
        lemma_decode_no_escape_identity(s.skip(1));
        assert(spec_percent_decode(s) =~= seq![s[0]] + s.skip(1));
        assert(seq![s[0]] + s.skip(1) =~= s);
    }
}

/// Encoding then decoding a value of ASCII alphanumerics alone returns
/// the original value unchanged.
pub proof fn lemma_percent_round_trip_alnum(s: Seq<u8>)
    requires
        forall|i: int| 0 <= i < s.len() ==> spec_is_alnum(#[trigger] s[i]),
    ensures
        spec_percent_decode(spec_percent_encode(s)) == s,
{
    lemma_encode_alnum_identity(s);
    assert(forall|i: int| 0 <= i < s.len() ==> #[trigger] s[i] != 37);
    lemma_decode_no_escape_identity(s);
}

} // verus!

//! Byte-level text helpers shared by the signer, the percent-encoder and
//! the credential codec: ASCII character classes, lowercase hex encoding,
//! decimal rendering and parsing, and UTF-8 conversion back to `String`.

use vstd::prelude::*;
use vstd::string::StrSliceExecFns;
use vstd::utf8::{encode_utf8, valid_utf8, encode_utf8_decode_utf8};

verus! {

/// Whether two strings hold the same characters, decided over their
/// UTF-8 bytes: byte equality and character equality coincide.
pub fn str_eq(a: &str, b: &str) -> (r: bool)
    ensures
        r == (a@ == b@),
{
    let va = a.as_bytes_vec();
    let vb = b.as_bytes_vec();
    let r = va == vb;
    proof {
        if r {
            assert(va@ =~= vb@);
            encode_utf8_decode_utf8(a@);
            encode_utf8_decode_utf8(b@);
            assert(a@ == b@);
        } else {
            if a@ == b@ {
                assert(va@ =~= vb@);
                assert(va.len() == vb.len());
                assert(false);
            }
        }
    }
    r
}

/// Copies a byte vector.
pub fn copy_bytes(v: &Vec<u8>) -> (r: Vec<u8>)
    ensures
        r@ == v@,
{
    let mut r: Vec<u8> = Vec::new();
    let mut j: usize = 0;
    while j < v.len()
        invariant
            j <= v@.len(),
            r@ == v@.take(j as int),
        decreases v@.len() - j,
    {
        r.push(v[j]);
        proof {
            assert(v@.take(j as int + 1) =~= v@.take(j as int).push(v@[j as int]));
        }
        j = j + 1;
    }
    proof {
        assert(v@.take(v@.len() as int) =~= v@);
    }
    r
}

/// ASCII decimal digit.
pub open spec fn spec_is_digit(b: u8) -> bool {
    48 <= b <= 57
}

/// ASCII letter or digit.
pub open spec fn spec_is_alnum(b: u8) -> bool {
    spec_is_digit(b) || (65 <= b <= 90) || (97 <= b <= 122)
}

/// Lowercase hex digit for a nibble.
pub open spec fn spec_hex_digit(n: u8) -> u8 {
    if n < 10 {
        (48 + n) as u8
    } else {
        (87 + n) as u8
    }
}

/// Uppercase hex digit for a nibble.
pub open spec fn spec_hex_digit_upper(n: u8) -> u8 {
    if n < 10 {
        (48 + n) as u8
    } else {
        (55 + n) as u8
    }
}

/// Whether a byte is a lowercase hex digit.
pub open spec fn spec_is_hex_lower(b: u8) -> bool {
    spec_is_digit(b) || (97 <= b <= 102)
}

/// The lowercase hex rendering of a byte string, two digits per byte.
pub open spec fn spec_hex_lower(bs: Seq<u8>) -> Seq<u8>
    decreases bs.len(),
{
    if bs.len() == 0 {
        Seq::<u8>::empty()
    } else {
        spec_hex_lower(bs.drop_last()) + seq![
            spec_hex_digit(bs.last() / 16),
            spec_hex_digit(bs.last() % 16),
        ]
    }
}

pub fn is_digit_byte(b: u8) -> (r: bool)
    ensures
        r == spec_is_digit(b),
{
    48 <= b && b <= 57
}

pub fn is_alnum_byte(b: u8) -> (r: bool)
    ensures
        r == spec_is_alnum(b),
{
    (48 <= b && b <= 57) || (65 <= b && b <= 90) || (97 <= b && b <= 122)
}

pub fn is_hex_lower_byte(b: u8) -> (r: bool)
    ensures
        r == spec_is_hex_lower(b),
{
    (48 <= b && b <= 57) || (97 <= b && b <= 102)
}

/// Renders a byte string as lowercase hex, two digits per byte.
pub fn hex_lower(bs: &Vec<u8>) -> (r: Vec<u8>)
    ensures
        r@ == spec_hex_lower(bs@),
        r@.len() == 2 * bs@.len(),
{
    let mut r: Vec<u8> = Vec::new();
    let mut j: usize = 0;
    proof {
        assert(bs@.take(0int) =~= Seq::<u8>::empty());
    }
    while j < bs.len()
        invariant
            j <= bs@.len(),
            r@ == spec_hex_lower(bs@.take(j as int)),
            r@.len() == 2 * j,
        decreases bs@.len() - j,
    {
        let b = bs[j];
        let hi = b / 16;
        let lo = b % 16;
        r.push(if hi < 10 { 48 + hi } else { 87 + hi });
        r.push(if lo < 10 { 48 + lo } else { 87 + lo });
        proof {
            let pre = bs@.take(j as int + 1);
            assert(pre.drop_last() =~= bs@.take(j as int));
            assert(pre.last() == b);
            assert(r@ =~= spec_hex_lower(pre));
        }
        j = j + 1;
    }
    proof {
        assert(bs@.take(bs@.len() as int) =~= bs@);
    }
    r
}

/// The hex rendering is twice as long as the input and holds lowercase
/// hex digits alone.
pub proof fn lemma_hex_lower_digits(bs: Seq<u8>)
    ensures
        spec_hex_lower(bs).len() == 2 * bs.len(),
        forall|i: int|
            0 <= i < spec_hex_lower(bs).len() ==> spec_is_hex_lower(
                #[trigger] spec_hex_lower(bs)[i],
            ),
    decreases bs.len(),
{
    if bs.len() != 0 {
        lemma_hex_lower_digits(bs.drop_last());
    }
}

/// Decimal rendering of a natural number, most significant digit first,
/// with no leading zero except for zero itself.
pub open spec fn spec_dec_nat(n: nat) -> Seq<u8>
    decreases n,
{
    if n < 10 {
        seq![(48 + n) as u8]
    } else {
        spec_dec_nat(n / 10).push((48 + n % 10) as u8)
    }
}

/// Decimal rendering of an integer: a leading minus sign for negatives.
pub open spec fn spec_dec_int(n: int) -> Seq<u8> {
    if n < 0 {
        seq![45u8] + spec_dec_nat((-n) as nat)
    } else {
        spec_dec_nat(n as nat)
    }
}

/// Renders an unsigned number in decimal.
pub fn u64_to_dec(n: u64) -> (r: Vec<u8>)
    ensures
        r@ == spec_dec_nat(n as nat),
    decreases n,
{
    if n < 10 {
        let mut v: Vec<u8> = Vec::new();
        v.push(48 + (n as u8));
        proof {
            assert(v@ =~= spec_dec_nat(n as nat));
        }
        v
    } else {
        let mut v = u64_to_dec(n / 10);
        v.push(48 + ((n % 10) as u8));
        v
    }
}

/// Renders a signed number in decimal.
pub fn i64_to_dec(n: i64) -> (r: Vec<u8>)
    ensures
        r@ == spec_dec_int(n as int),
{
    if n >= 0 {
        u64_to_dec(n as u64)
    } else {
        // magnitude computed without overflowing at i64::MIN
        let mag: u64 = ((-(n + 1)) as u64) + 1;
        proof {
            assert(mag as nat == (-(n as int)) as nat);
        }
        let mut v: Vec<u8> = Vec::new();
        v.push(45);
        let digits = u64_to_dec(mag);
        let mut k: usize = 0;
        while k < digits.len()
            invariant
                k <= digits@.len(),
                digits@ == spec_dec_nat(mag as nat),
                v@ == seq![45u8] + digits@.take(k as int),
            decreases digits@.len() - k,
        {
            v.push(digits[k]);
            proof {
                assert(digits@.take(k as int + 1) =~= digits@.take(k as int).push(digits@[k as int]));
                assert(v@ =~= seq![45u8] + digits@.take(k as int + 1));
            }
            k = k + 1;
        }
        proof {
            assert(digits@.take(digits@.len() as int) =~= digits@);
        }
        v
    }
}

/// A decimal rendering is never empty and holds digits alone.
pub proof fn lemma_dec_nat_digits(n: nat)
    ensures
        spec_dec_nat(n).len() >= 1,
        spec_all_digits(spec_dec_nat(n)),
    decreases n,
{
    if n < 10 {
        assert(spec_dec_nat(n)[0] == (48 + n) as u8);
    } else {
        lemma_dec_nat_digits(n / 10);
        let pre = spec_dec_nat(n / 10);
        let whole = spec_dec_nat(n);
        assert forall|k: int| 0 <= k < whole.len() implies spec_is_digit(#[trigger] whole[k]) by {
            if k < pre.len() {
                assert(whole[k] == pre[k]);
            } else {
                assert(whole[k] == (48 + n % 10) as u8);
            }
        }
    }
}

/// Reading a decimal rendering yields the number it came from.
pub proof fn lemma_dec_value_round(n: nat)
    ensures
        spec_dec_value(spec_dec_nat(n)) == n,
    decreases n,
{
    if n < 10 {
        let s = spec_dec_nat(n);
        assert(s.drop_last() =~= Seq::<u8>::empty());
        assert(spec_dec_value(Seq::<u8>::empty()) == 0);
        assert(s.last() == (48 + n) as u8);
        assert(spec_dec_value(s) == spec_dec_value(s.drop_last()) * 10 + (s.last() - 48) as nat);
    } else {
        lemma_dec_value_round(n / 10);
        let pre = spec_dec_nat(n / 10);
        let s = spec_dec_nat(n);
        assert(s.drop_last() =~= pre);
        assert(spec_dec_value(s) == (n / 10) * 10 + n % 10);
    }
}

/// A written signed decimal reads back as the same number.
pub proof fn lemma_parse_dec_int_round(n: i64)
    ensures
        spec_parse_dec_i64(spec_dec_int(n as int)) == Some(n),
{
    if n >= 0 {
        let s = spec_dec_nat(n as nat);
        lemma_dec_nat_digits(n as nat);
        lemma_dec_value_round(n as nat);
        assert(spec_is_digit(s[0]));
        assert(s[0] != 45 && s[0] != 43);
        assert(spec_dec_int(n as int) == s);
    } else {
        let m = (-(n as int)) as nat;
        let s = spec_dec_int(n as int);
        let body = spec_dec_nat(m);
        lemma_dec_nat_digits(m);
        lemma_dec_value_round(m);
        assert(s == seq![45u8] + body);
        assert(s[0] == 45);
        assert(s.drop_first() =~= body);
        assert(m <= 0x8000_0000_0000_0000);
        assert(spec_parse_dec_i64(s) == Some((-(m as int)) as i64));
    }
}

/// The numeric value of a digit string, most significant digit first.
pub open spec fn spec_dec_value(s: Seq<u8>) -> nat
    decreases s.len(),
{
    if s.len() == 0 {
        0
    } else {
        spec_dec_value(s.drop_last()) * 10 + (s.last() - 48) as nat
    }
}

/// Whether every byte of `s` is a decimal digit.
pub open spec fn spec_all_digits(s: Seq<u8>) -> bool {
    forall|i: int| 0 <= i < s.len() ==> spec_is_digit(#[trigger] s[i])
}

/// The value of a digit string never shrinks as more digits arrive.
pub proof fn lemma_dec_value_prefix(s: Seq<u8>, k: int)
    requires
        0 <= k <= s.len(),
    ensures
        spec_dec_value(s) >= spec_dec_value(s.take(k)),
    decreases s.len() - k,
{
    if k < s.len() {
        let t = s.take(k + 1);
        assert(t.drop_last() =~= s.take(k));
        assert(spec_dec_value(t) == spec_dec_value(s.take(k)) * 10 + (t.last() - 48) as nat);
        lemma_dec_value_prefix(s, k + 1);
    } else {
        assert(s.take(k) =~= s);
    }
}

/// The value of a nonempty digit string, or `None` if some byte is not a
/// digit, the string is empty, or the value does not fit a `u64`.
pub open spec fn spec_parse_dec_u64(s: Seq<u8>) -> Option<u64> {
    if s.len() == 0 || !spec_all_digits(s) || spec_dec_value(s) > u64::MAX {
        None
    } else {
        Some(spec_dec_value(s) as u64)
    }
}

/// Parses a digit string into a `u64`, rejecting overflow.
pub fn dec_to_u64(s: &Vec<u8>) -> (r: Option<u64>)
    ensures
        r == spec_parse_dec_u64(s@),
{
    if s.len() == 0 {
        return None;
    }
    let mut acc: u64 = 0;
    let mut j: usize = 0;
    proof {
        assert(s@.take(0int) =~= Seq::<u8>::empty());
    }
    while j < s.len()
        invariant
            j <= s@.len(),
            s@.len() > 0,
            spec_all_digits(s@.take(j as int)),
            acc as nat == spec_dec_value(s@.take(j as int)),
        decreases s@.len() - j,
    {
        let b = s[j];
        if !(48 <= b && b <= 57) {
            return None;
        }
        let d = b - 48;
        proof {
            let t = s@.take(j as int + 1);
            assert(t.drop_last() =~= s@.take(j as int));
            assert(t.last() == b);
            assert(spec_dec_value(t) == (acc as nat) * 10 + d as nat);
        }
        if acc > (u64::MAX - (d as u64)) / 10 {
            proof {
                let t = s@.take(j as int + 1);
                assert((acc as nat) * 10 + d as nat > u64::MAX) by (nonlinear_arith)
                    requires
                        acc > (u64::MAX - (d as u64)) / 10,
                        d <= 9,
                ;
                lemma_dec_value_prefix(s@, j as int + 1);
            }
            return None;
        }
        proof {
            assert((acc as nat) * 10 + d as nat <= u64::MAX) by (nonlinear_arith)
                requires
                    acc <= (u64::MAX - (d as u64)) / 10,
                    d <= 9,
            ;
        }
        acc = acc * 10 + (d as u64);
        j = j + 1;
    }
    proof {
        assert(s@.take(s@.len() as int) =~= s@);
    }
    Some(acc)
}

/// Decimal integer with an optional leading sign, as `str::parse::<i64>`
/// reads it: `None` on an empty body, a stray byte, or overflow.
pub open spec fn spec_parse_dec_i64(s: Seq<u8>) -> Option<i64> {
    if s.len() >= 1 && (s[0] == 45 || s[0] == 43) {
        let body = s.drop_first();
        if body.len() == 0 || !spec_all_digits(body) {
            None
        } else if s[0] == 45 {
            if spec_dec_value(body) > 0x8000_0000_0000_0000 {
                None
            } else {
                Some((-(spec_dec_value(body) as int)) as i64)
            }
        } else {
            if spec_dec_value(body) > i64::MAX {
                None
            } else {
                Some(spec_dec_value(body) as i64)
            }
        }
    } else {
        if s.len() == 0 || !spec_all_digits(s) || spec_dec_value(s) > i64::MAX {
            None
        } else {
            Some(spec_dec_value(s) as i64)
        }
    }
}

/// Parses a signed decimal string into an `i64`, rejecting overflow.
pub fn dec_to_i64(s: &Vec<u8>) -> (r: Option<i64>)
    ensures
        r == spec_parse_dec_i64(s@),
{
    if s.len() >= 1 && (s[0] == 45 || s[0] == 43) {
        let negative = s[0] == 45;
        let mut body: Vec<u8> = Vec::new();
        let mut j: usize = 1;
        while j < s.len()
            invariant
                1 <= j <= s@.len(),
                body@ == s@.subrange(1, j as int),
            decreases s@.len() - j,
        {
            body.push(s[j]);
            proof {
                assert(s@.subrange(1, j as int + 1) =~= s@.subrange(1, j as int).push(s@[j as int]));
            }
            j = j + 1;
        }
        proof {
            assert(body@ =~= s@.drop_first());
        }
        match dec_to_u64(&body) {
            None => None,
            Some(v) => {
                if negative {
                    if v > 0x8000_0000_0000_0000 {
                        None
                    } else if v == 0x8000_0000_0000_0000 {
                        Some(i64::MIN)
                    } else {
                        Some(-(v as i64))
                    }
                } else {
                    if v > i64::MAX as u64 {
                        None
                    } else {
                        Some(v as i64)
                    }
                }
            },
        }
    } else {
        match dec_to_u64(s) {
            None => None,
            Some(v) => {
                if v > i64::MAX as u64 {
                    None
                } else {
                    Some(v as i64)
                }
            },
        }
    }
}

/// Relies on `String::from_utf8`: its documentation promises `Ok` exactly
/// on byte strings that are valid UTF-8, carrying those very bytes.
#[verifier::external_body]
pub fn string_from_utf8(v: Vec<u8>) -> (r: Option<String>)
    ensures
        r matches Some(s) ==> encode_utf8(s@) == v@,
        valid_utf8(v@) ==> r is Some,
{
    String::from_utf8(v).ok()
}

} // verus!

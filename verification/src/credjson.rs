//! The credential persistence format: a JSON object
//! `{"token":{...},"cookies":[...]}` written deterministically with a
//! stable field order, and read back leniently — whitespace is free,
//! unknown members are skipped, absent members read as empty or zero,
//! and a malformed file reads as nothing rather than failing the
//! caller.

use vstd::prelude::*;
use vstd::utf8::{decode_utf8, encode_utf8, valid_utf8, encode_utf8_decode_utf8};
use crate::domain::{AuthData, Cookie, TokenInfo};
use crate::text::{
    spec_dec_int, spec_parse_dec_i64, spec_is_digit, spec_hex_digit, i64_to_dec, dec_to_i64,
    string_from_utf8, is_digit_byte, str_eq,
};

verus! {

// ---------------------------------------------------------------------
// The mathematical reading of a parsed credential file.
// ---------------------------------------------------------------------

/// One parsed cookie, at the level of character sequences.
pub struct CookieModel {
    pub name: Seq<char>,
    pub value: Seq<char>,
    pub domain: Seq<char>,
    pub expires: i64,
}

/// A parsed credential file, at the level of character sequences.
pub struct AuthModel {
    pub access_token: Seq<char>,
    pub refresh_token: Seq<char>,
    pub expires_in: i64,
    pub cookies: Seq<CookieModel>,
}

/// The reading of one concrete cookie as a model.
pub open spec fn spec_cookie_model_of(c: Cookie) -> CookieModel {
    CookieModel { name: c.name@, value: c.value@, domain: c.domain@, expires: c.expires }
}

/// The reading of a concrete cookie list as models.
pub open spec fn spec_cookie_models(cs: Seq<Cookie>) -> Seq<CookieModel> {
    cs.map_values(|c: Cookie| spec_cookie_model_of(c))
}

/// The reading of concrete credentials as a model.
pub open spec fn spec_model_of(a: AuthData) -> AuthModel {
    AuthModel {
        access_token: a.token.access_token@,
        refresh_token: a.token.refresh_token@,
        expires_in: a.token.expires_in,
        cookies: spec_cookie_models(a.cookies@),
    }
}

// ---------------------------------------------------------------------
// Lexical pieces: whitespace, strings, integers.
// ---------------------------------------------------------------------

/// JSON whitespace.
pub open spec fn spec_is_ws(b: u8) -> bool {
    b == 32 || b == 9 || b == 10 || b == 13
}

/// The first non-whitespace position at or after `i`.
pub open spec fn spec_skip_ws(s: Seq<u8>, i: int) -> int
    decreases s.len() - i when 0 <= i <= s.len()
{
    if i < s.len() && spec_is_ws(s[i]) {
        spec_skip_ws(s, i + 1)
    } else {
        i
    }
}

pub proof fn lemma_skip_ws_bounds(s: Seq<u8>, i: int)
    requires
        0 <= i <= s.len(),
    ensures
        i <= spec_skip_ws(s, i) <= s.len(),
    decreases s.len() - i,
{
    if i < s.len() && spec_is_ws(s[i]) {
        lemma_skip_ws_bounds(s, i + 1);
    }
}

/// Advances past whitespace.
fn skip_ws(s: &Vec<u8>, i: usize) -> (r: usize)
    requires
        i <= s@.len(),
    ensures
        r == spec_skip_ws(s@, i as int),
        i <= r <= s@.len(),
{
    let mut j = i;
    while j < s.len() && (s[j] == 32 || s[j] == 9 || s[j] == 10 || s[j] == 13)
        invariant
            i <= j <= s@.len(),
            spec_skip_ws(s@, i as int) == spec_skip_ws(s@, j as int),
        decreases s@.len() - j,
    {
        j = j + 1;
    }
    proof {
        lemma_skip_ws_bounds(s@, i as int);
    }
    j
}

/// The body of a JSON string from `i` (after the opening quote): the
/// raw decoded bytes and the position after the closing quote.
/// Accepts the escapes `\" \\ \/ \n \t \r \b \f` and `\u00XX` below
/// 0x80; refuses raw control bytes.
pub open spec fn spec_string_body(s: Seq<u8>, i: int, acc: Seq<u8>) -> Option<(Seq<u8>, int)>
    decreases s.len() - i when 0 <= i <= s.len()
{
    if i >= s.len() {
        None
    } else if s[i] == 34 {
        Some((acc, i + 1))
    } else if s[i] == 92 {
        if i + 1 >= s.len() {
            None
        } else if s[i + 1] == 34 {
            spec_string_body(s, i + 2, acc.push(34))
        } else if s[i + 1] == 92 {
            spec_string_body(s, i + 2, acc.push(92))
        } else if s[i + 1] == 47 {
            spec_string_body(s, i + 2, acc.push(47))
        } else if s[i + 1] == 110 {
            spec_string_body(s, i + 2, acc.push(10))
        } else if s[i + 1] == 116 {
            spec_string_body(s, i + 2, acc.push(9))
        } else if s[i + 1] == 114 {
            spec_string_body(s, i + 2, acc.push(13))
        } else if s[i + 1] == 98 {
            spec_string_body(s, i + 2, acc.push(8))
        } else if s[i + 1] == 102 {
            spec_string_body(s, i + 2, acc.push(12))
        } else if s[i + 1] == 117 {
            if i + 6 > s.len() {
                None
            } else {
                match spec_u16_escape(s[i + 2], s[i + 3], s[i + 4], s[i + 5]) {
                    Some(v) => if v < 128 {
                        spec_string_body(s, i + 6, acc.push(v as u8))
                    } else {
                        None
                    },
                    None => None,
                }
            }
        } else {
            None
        }
    } else if s[i] < 32 {
        None
    } else {
        spec_string_body(s, i + 1, acc.push(s[i]))
    }
}

/// The value of a four-hex-digit escape, either case.
pub open spec fn spec_u16_escape(a: u8, b: u8, c: u8, d: u8) -> Option<u32> {
    match (spec_hex_val(a), spec_hex_val(b), spec_hex_val(c), spec_hex_val(d)) {
        (Some(x), Some(y), Some(z), Some(w)) => Some(
            ((x as u32) * 4096 + (y as u32) * 256 + (z as u32) * 16 + (w as u32)) as u32,
        ),
        _ => None,
    }
}

/// The value of a hex digit byte, either case.
pub open spec fn spec_hex_val(b: u8) -> Option<u8> {
    if 48 <= b <= 57 {
        Some((b - 48) as u8)
    } else if 97 <= b <= 102 {
        Some((b - 87) as u8)
    } else if 65 <= b <= 70 {
        Some((b - 55) as u8)
    } else {
        None
    }
}

/// A whole JSON string at `i`: the decoded characters and the position
/// after the closing quote. The raw bytes must be valid UTF-8.
pub open spec fn spec_parse_string(s: Seq<u8>, i: int) -> Option<(Seq<char>, int)> {
    if 0 <= i < s.len() && s[i] == 34 {
        match spec_string_body(s, i + 1, Seq::<u8>::empty()) {
            Some((raw, j)) => if valid_utf8(raw) {
                Some((decode_utf8(raw), j))
            } else {
                None
            },
            None => None,
        }
    } else {
        None
    }
}

/// String bodies only move forward, and never past the end.
pub proof fn lemma_string_body_progress(s: Seq<u8>, i: int, acc: Seq<u8>)
    requires
        0 <= i <= s.len(),
    ensures
        spec_string_body(s, i, acc) matches Some(p) ==> i < p.1 <= s.len(),
    decreases s.len() - i,
{
    if i >= s.len() {
    } else if s[i] == 34 {
    } else if s[i] == 92 {
        if i + 1 >= s.len() {
        } else if s[i + 1] == 117 {
            if i + 6 <= s.len() {
                match spec_u16_escape(s[i + 2], s[i + 3], s[i + 4], s[i + 5]) {
                    Some(v) => if v < 128 {
                        lemma_string_body_progress(s, i + 6, acc.push(v as u8));
                    },
                    None => {},
                }
            }
        } else {
            lemma_string_body_progress(s, i + 2, acc.push(34));
            lemma_string_body_progress(s, i + 2, acc.push(92));
            lemma_string_body_progress(s, i + 2, acc.push(47));
            lemma_string_body_progress(s, i + 2, acc.push(10));
            lemma_string_body_progress(s, i + 2, acc.push(9));
            lemma_string_body_progress(s, i + 2, acc.push(13));
            lemma_string_body_progress(s, i + 2, acc.push(8));
            lemma_string_body_progress(s, i + 2, acc.push(12));
        }
    } else if s[i] < 32 {
    } else {
        lemma_string_body_progress(s, i + 1, acc.push(s[i]));
    }
}

/// The value of a hex digit byte, at runtime.
fn hex_val(b: u8) -> (r: Option<u8>)
    ensures
        r == spec_hex_val(b),
{
    if 48 <= b && b <= 57 {
        Some(b - 48)
    } else if 97 <= b && b <= 102 {
        Some(b - 87)
    } else if 65 <= b && b <= 70 {
        Some(b - 55)
    } else {
        None
    }
}

/// Parses a JSON string at `i` into a `String` and the position after
/// its closing quote.
fn parse_string(s: &Vec<u8>, i: usize) -> (r: Option<(String, usize)>)
    requires
        i <= s@.len(),
    ensures
        match r {
            Some(p) => spec_parse_string(s@, i as int) matches Some(q) && q.0 == p.0@ && q.1
                == p.1 && p.1 <= s@.len(),
            None => spec_parse_string(s@, i as int) is None,
        },
{
    if i >= s.len() || s[i] != 34 {
        return None;
    }
    let mut acc: Vec<u8> = Vec::new();
    let mut j = i + 1;
    proof {
        assert(acc@ =~= Seq::<u8>::empty());
    }
    loop
        invariant
            i < s@.len(),
            s@[i as int] == 34,
            i + 1 <= j <= s@.len(),
            spec_string_body(s@, i as int + 1, Seq::<u8>::empty()) == spec_string_body(
                s@,
                j as int,
                acc@,
            ),
        decreases s@.len() - j,
    {
        if j >= s.len() {
            return None;
        }
        let b = s[j];
        if b == 34 {
            proof {
                lemma_string_body_progress(s@, i as int + 1, Seq::<u8>::empty());
            }
            let ghost raw = acc@;
            let out = string_from_utf8(acc);
            match out {
                Some(t) => {
                    proof {
                        vstd::utf8::encode_utf8_valid_utf8(t@);
                        encode_utf8_decode_utf8(t@);
                        assert(valid_utf8(raw));
                        assert(decode_utf8(raw) == t@);
                        assert(spec_string_body(s@, i as int + 1, Seq::<u8>::empty()) == Some(
                            (raw, j as int + 1),
                        ));
                        assert(spec_parse_string(s@, i as int) == Some((t@, j as int + 1)));
                    }
                    return Some((t, j + 1));
                },
                None => {
                    return None;
                },
            }
        } else if b == 92 {
            if j + 1 >= s.len() {
                return None;
            }
            let e = s[j + 1];
            if e == 34 {
                acc.push(34);
            } else if e == 92 {
                acc.push(92);
            } else if e == 47 {
                acc.push(47);
            } else if e == 110 {
                acc.push(10);
            } else if e == 116 {
                acc.push(9);
            } else if e == 114 {
                acc.push(13);
            } else if e == 98 {
                acc.push(8);
            } else if e == 102 {
                acc.push(12);
            } else if e == 117 {
                if s.len() - j < 6 {
                    return None;
                }
                let h1 = hex_val(s[j + 2]);
                let h2 = hex_val(s[j + 3]);
                let h3 = hex_val(s[j + 4]);
                let h4 = hex_val(s[j + 5]);
                match (h1, h2, h3, h4) {
                    (Some(x), Some(y), Some(z), Some(w)) => {
                        let v: u32 = (x as u32) * 4096 + (y as u32) * 256 + (z as u32) * 16 + (
                        w as u32);
                        if v < 128 {
                            acc.push(v as u8);
                            j = j + 6;
                        } else {
                            return None;
                        }
                    },
                    _ => {
                        return None;
                    },
                }
                continue;
            } else {
                return None;
            }
            j = j + 2;
            continue;
        } else if b < 32 {
            return None;
        } else {
            acc.push(b);
            j = j + 1;
            continue;
        }
    }
}

/// The first position at or after `i` whose byte is not a digit.
pub open spec fn spec_scan_digits(s: Seq<u8>, i: int) -> int
    decreases s.len() - i when 0 <= i <= s.len()
{
    if i < s.len() && spec_is_digit(s[i]) {
        spec_scan_digits(s, i + 1)
    } else {
        i
    }
}

pub proof fn lemma_scan_digits_bounds(s: Seq<u8>, i: int)
    requires
        0 <= i <= s.len(),
    ensures
        i <= spec_scan_digits(s, i) <= s.len(),
    decreases s.len() - i,
{
    if i < s.len() && spec_is_digit(s[i]) {
        lemma_scan_digits_bounds(s, i + 1);
    }
}

/// A JSON integer at `i`: its value and the position after its digits.
/// An integer that does not fit an `i64`, or a number with a fraction
/// or exponent, reads as nothing.
pub open spec fn spec_parse_int(s: Seq<u8>, i: int) -> Option<(i64, int)> {
    if 0 <= i < s.len() {
        let start = if s[i] == 45 {
            i + 1
        } else {
            i
        };
        let end = spec_scan_digits(s, start);
        if end == start {
            None
        } else {
            match spec_parse_dec_i64(s.subrange(i, end)) {
                Some(v) => Some((v, end)),
                None => None,
            }
        }
    } else {
        None
    }
}

/// Advances past digits.
fn scan_digits(s: &Vec<u8>, i: usize) -> (r: usize)
    requires
        i <= s@.len(),
    ensures
        r == spec_scan_digits(s@, i as int),
        i <= r <= s@.len(),
{
    let mut j = i;
    while j < s.len() && is_digit_byte(s[j])
        invariant
            i <= j <= s@.len(),
            spec_scan_digits(s@, i as int) == spec_scan_digits(s@, j as int),
        decreases s@.len() - j,
    {
        j = j + 1;
    }
    proof {
        lemma_scan_digits_bounds(s@, i as int);
    }
    j
}

/// Parses a JSON integer at `i`.
fn parse_int(s: &Vec<u8>, i: usize) -> (r: Option<(i64, usize)>)
    requires
        i <= s@.len(),
    ensures
        match r {
            Some(p) => spec_parse_int(s@, i as int) == Some((p.0, p.1 as int)) && p.1 <= s@.len(),
            None => spec_parse_int(s@, i as int) is None,
        },
{
    if i >= s.len() {
        return None;
    }
    let start = if s[i] == 45 {
        i + 1
    } else {
        i
    };
    let end = scan_digits(s, start);
    if end == start {
        return None;
    }
    let mut digits: Vec<u8> = Vec::new();
    let mut k = i;
    while k < end
        invariant
            i <= k <= end,
            end <= s@.len(),
            digits@ == s@.subrange(i as int, k as int),
        decreases end - k,
    {
        digits.push(s[k]);
        proof {
            assert(s@.subrange(i as int, k as int + 1) =~= s@.subrange(i as int, k as int).push(
                s@[k as int],
            ));
        }
        k = k + 1;
    }
    match dec_to_i64(&digits) {
        Some(v) => Some((v, end)),
        None => None,
    }
}

// ---------------------------------------------------------------------
// Skipping a member this reader does not know.
// ---------------------------------------------------------------------

/// How deep a skipped unknown value may nest.
pub const SKIP_DEPTH: u32 = 32;

/// Skips a JSON string at `i` without decoding it.
pub open spec fn spec_skip_string(s: Seq<u8>, i: int) -> Option<int> {
    if 0 <= i < s.len() && s[i] == 34 {
        match spec_string_body(s, i + 1, Seq::<u8>::empty()) {
            Some((_, j)) => Some(j),
            None => None,
        }
    } else {
        None
    }
}

/// Skips one unknown JSON value at `i`: a string, number, literal,
/// object or array, nesting at most `depth` containers. The guards that
/// refuse a non-advancing position can never fire on a real parse; they
/// make the recursion well-founded.
pub open spec fn spec_skip_value(s: Seq<u8>, i: int, depth: nat) -> Option<int>
    decreases s.len() - i, 0int when 0 <= i
{
    if i >= s.len() {
        None
    } else if s[i] == 34 {
        spec_skip_string(s, i)
    } else if s[i] == 123 {
        if depth == 0 {
            None
        } else {
            spec_skip_members(s, i + 1, (depth - 1) as nat)
        }
    } else if s[i] == 91 {
        if depth == 0 {
            None
        } else {
            spec_skip_elements(s, i + 1, (depth - 1) as nat)
        }
    } else if s[i] == 116 {
        if i + 4 <= s.len() && s[i + 1] == 114 && s[i + 2] == 117 && s[i + 3] == 101 {
            Some(i + 4)
        } else {
            None
        }
    } else if s[i] == 102 {
        if i + 5 <= s.len() && s[i + 1] == 97 && s[i + 2] == 108 && s[i + 3] == 115 && s[i + 4]
            == 101 {
            Some(i + 5)
        } else {
            None
        }
    } else if s[i] == 110 {
        if i + 4 <= s.len() && s[i + 1] == 117 && s[i + 2] == 108 && s[i + 3] == 108 {
            Some(i + 4)
        } else {
            None
        }
    } else {
        match spec_parse_int(s, i) {
            Some((_, j)) => Some(j),
            None => None,
        }
    }
}

/// Skips the members of an unknown object, `i` standing just after the
/// `{` or a `,`.
pub open spec fn spec_skip_members(s: Seq<u8>, i: int, depth: nat) -> Option<int>
    decreases s.len() - i, 1int when 0 <= i
{
    let j = spec_skip_ws(s, i);
    if j >= s.len() {
        None
    } else if s[j] == 125 {
        Some(j + 1)
    } else {
        match spec_skip_string(s, j) {
            Some(j2) => {
                let j3 = spec_skip_ws(s, j2);
                let j3v = spec_skip_ws(s, j3 + 1);
                if 0 <= j3 < s.len() && s[j3] == 58 && i < j3v <= s.len() {
                    match spec_skip_value(s, j3v, depth) {
                        Some(j4) => {
                            let j5 = spec_skip_ws(s, j4);
                            if 0 <= j5 < s.len() && s[j5] == 44 && j5 >= i {
                                spec_skip_members(s, j5 + 1, depth)
                            } else if 0 <= j5 < s.len() && s[j5] == 125 {
                                Some(j5 + 1)
                            } else {
                                None
                            }
                        },
                        None => None,
                    }
                } else {
                    None
                }
            },
            None => None,
        }
    }
}

/// Skips the elements of an unknown array, `i` standing just after the
/// `[` or a `,`.
pub open spec fn spec_skip_elements(s: Seq<u8>, i: int, depth: nat) -> Option<int>
    decreases s.len() - i, 1int when 0 <= i
{
    let j = spec_skip_ws(s, i);
    if j >= s.len() {
        None
    } else if s[j] == 93 {
        Some(j + 1)
    } else if j >= i {
        match spec_skip_value(s, j, depth) {
            Some(j2) => {
                let j3 = spec_skip_ws(s, j2);
                if 0 <= j3 < s.len() && s[j3] == 44 && j3 >= i {
                    spec_skip_elements(s, j3 + 1, depth)
                } else if 0 <= j3 < s.len() && s[j3] == 93 {
                    Some(j3 + 1)
                } else {
                    None
                }
            },
            None => None,
        }
    } else {
        None
    }
}

// ---------------------------------------------------------------------
// The typed records: token, cookie, cookie list, and the whole file.
// ---------------------------------------------------------------------

/// The token accumulator: access token, refresh token, lifetime.
pub open spec fn spec_token_member_value(
    s: Seq<u8>,
    v: int,
    key: Seq<char>,
    acc: (Seq<char>, Seq<char>, i64),
) -> Option<((Seq<char>, Seq<char>, i64), int)> {
    if key == "access_token"@ {
        match spec_parse_string(s, v) {
            Some((val, j)) => Some(((val, acc.1, acc.2), j)),
            None => None,
        }
    } else if key == "refresh_token"@ {
        match spec_parse_string(s, v) {
            Some((val, j)) => Some(((acc.0, val, acc.2), j)),
            None => None,
        }
    } else if key == "expires_in"@ {
        match spec_parse_int(s, v) {
            Some((val, j)) => Some(((acc.0, acc.1, val), j)),
            None => None,
        }
    } else {
        match spec_skip_value(s, v, SKIP_DEPTH as nat) {
            Some(j) => Some((acc, j)),
            None => None,
        }
    }
}

/// The members of the token object, `i` just after its `{` or a `,`;
/// a known key overwrites its field, an unknown one is skipped.
pub open spec fn spec_token_members(
    s: Seq<u8>,
    i: int,
    acc: (Seq<char>, Seq<char>, i64),
) -> Option<((Seq<char>, Seq<char>, i64), int)>
    decreases s.len() - i when 0 <= i
{
    let j = spec_skip_ws(s, i);
    if !(0 <= j < s.len()) {
        None
    } else if s[j] == 125 {
        Some((acc, j + 1))
    } else {
        match spec_parse_string(s, j) {
            Some((key, j2)) => {
                let j3 = spec_skip_ws(s, j2);
                if 0 <= j3 < s.len() && s[j3] == 58 {
                    match spec_token_member_value(s, spec_skip_ws(s, j3 + 1), key, acc) {
                        Some((acc2, j4)) => {
                            let j5 = spec_skip_ws(s, j4);
                            if 0 <= j5 < s.len() && s[j5] == 44 && j5 >= i {
                                spec_token_members(s, j5 + 1, acc2)
                            } else if 0 <= j5 < s.len() && s[j5] == 125 {
                                Some((acc2, j5 + 1))
                            } else {
                                None
                            }
                        },
                        None => None,
                    }
                } else {
                    None
                }
            },
            None => None,
        }
    }
}

/// A token object at `i`: the parsed fields and the position after its
/// closing `}`. Absent members read as empty or zero.
pub open spec fn spec_parse_token(s: Seq<u8>, i: int) -> Option<((Seq<char>, Seq<char>, i64), int)> {
    if 0 <= i < s.len() && s[i] == 123 {
        spec_token_members(s, i + 1, (Seq::<char>::empty(), Seq::<char>::empty(), 0i64))
    } else {
        None
    }
}

/// One cookie member.
pub open spec fn spec_cookie_member_value(
    s: Seq<u8>,
    v: int,
    key: Seq<char>,
    acc: CookieModel,
) -> Option<(CookieModel, int)> {
    if key == "name"@ {
        match spec_parse_string(s, v) {
            Some((val, j)) => Some((CookieModel { name: val, ..acc }, j)),
            None => None,
        }
    } else if key == "value"@ {
        match spec_parse_string(s, v) {
            Some((val, j)) => Some((CookieModel { value: val, ..acc }, j)),
            None => None,
        }
    } else if key == "domain"@ {
        match spec_parse_string(s, v) {
            Some((val, j)) => Some((CookieModel { domain: val, ..acc }, j)),
            None => None,
        }
    } else if key == "expires"@ {
        match spec_parse_int(s, v) {
            Some((val, j)) => Some((CookieModel { expires: val, ..acc }, j)),
            None => None,
        }
    } else {
        match spec_skip_value(s, v, SKIP_DEPTH as nat) {
            Some(j) => Some((acc, j)),
            None => None,
        }
    }
}

/// The members of one cookie object.
pub open spec fn spec_cookie_members(s: Seq<u8>, i: int, acc: CookieModel) -> Option<
    (CookieModel, int),
>
    decreases s.len() - i when 0 <= i
{
    let j = spec_skip_ws(s, i);
    if !(0 <= j < s.len()) {
        None
    } else if s[j] == 125 {
        Some((acc, j + 1))
    } else {
        match spec_parse_string(s, j) {
            Some((key, j2)) => {
                let j3 = spec_skip_ws(s, j2);
                if 0 <= j3 < s.len() && s[j3] == 58 {
                    match spec_cookie_member_value(s, spec_skip_ws(s, j3 + 1), key, acc) {
                        Some((acc2, j4)) => {
                            let j5 = spec_skip_ws(s, j4);
                            if 0 <= j5 < s.len() && s[j5] == 44 && j5 >= i {
                                spec_cookie_members(s, j5 + 1, acc2)
                            } else if 0 <= j5 < s.len() && s[j5] == 125 {
                                Some((acc2, j5 + 1))
                            } else {
                                None
                            }
                        },
                        None => None,
                    }
                } else {
                    None
                }
            },
            None => None,
        }
    }
}

/// The empty cookie every parse starts from.
pub open spec fn spec_empty_cookie_model() -> CookieModel {
    CookieModel {
        name: Seq::<char>::empty(),
        value: Seq::<char>::empty(),
        domain: Seq::<char>::empty(),
        expires: 0,
    }
}

/// One cookie object at `i`.
pub open spec fn spec_parse_cookie(s: Seq<u8>, i: int) -> Option<(CookieModel, int)> {
    if 0 <= i < s.len() && s[i] == 123 {
        spec_cookie_members(s, i + 1, spec_empty_cookie_model())
    } else {
        None
    }
}

/// The elements of the cookie array, `i` just after its `[` or a `,`.
pub open spec fn spec_cookie_elements(s: Seq<u8>, i: int, acc: Seq<CookieModel>) -> Option<
    (Seq<CookieModel>, int),
>
    decreases s.len() - i when 0 <= i
{
    let j = spec_skip_ws(s, i);
    if !(0 <= j < s.len()) {
        None
    } else if s[j] == 93 {
        Some((acc, j + 1))
    } else {
        match spec_parse_cookie(s, j) {
            Some((c, j2)) => {
                let j3 = spec_skip_ws(s, j2);
                if 0 <= j3 < s.len() && s[j3] == 44 && j3 >= i {
                    spec_cookie_elements(s, j3 + 1, acc.push(c))
                } else if 0 <= j3 < s.len() && s[j3] == 93 {
                    Some((acc.push(c), j3 + 1))
                } else {
                    None
                }
            },
            None => None,
        }
    }
}

/// One member of the credential object.
pub open spec fn spec_auth_member_value(s: Seq<u8>, v: int, key: Seq<char>, acc: AuthModel) -> Option<
    (AuthModel, int),
> {
    if key == "token"@ {
        match spec_parse_token(s, v) {
            Some((t, j)) => Some(
                (
                    AuthModel {
                        access_token: t.0,
                        refresh_token: t.1,
                        expires_in: t.2,
                        ..acc
                    },
                    j,
                ),
            ),
            None => None,
        }
    } else if key == "cookies"@ {
        if 0 <= v < s.len() && s[v] == 91 {
            match spec_cookie_elements(s, v + 1, Seq::<CookieModel>::empty()) {
                Some((cs, j)) => Some((AuthModel { cookies: cs, ..acc }, j)),
                None => None,
            }
        } else {
            None
        }
    } else {
        match spec_skip_value(s, v, SKIP_DEPTH as nat) {
            Some(j) => Some((acc, j)),
            None => None,
        }
    }
}

/// The members of the credential object.
pub open spec fn spec_auth_members(s: Seq<u8>, i: int, acc: AuthModel) -> Option<(AuthModel, int)>
    decreases s.len() - i when 0 <= i
{
    let j = spec_skip_ws(s, i);
    if !(0 <= j < s.len()) {
        None
    } else if s[j] == 125 {
        Some((acc, j + 1))
    } else {
        match spec_parse_string(s, j) {
            Some((key, j2)) => {
                let j3 = spec_skip_ws(s, j2);
                if 0 <= j3 < s.len() && s[j3] == 58 {
                    match spec_auth_member_value(s, spec_skip_ws(s, j3 + 1), key, acc) {
                        Some((acc2, j4)) => {
                            let j5 = spec_skip_ws(s, j4);
                            if 0 <= j5 < s.len() && s[j5] == 44 && j5 >= i {
                                spec_auth_members(s, j5 + 1, acc2)
                            } else if 0 <= j5 < s.len() && s[j5] == 125 {
                                Some((acc2, j5 + 1))
                            } else {
                                None
                            }
                        },
                        None => None,
                    }
                } else {
                    None
                }
            },
            None => None,
        }
    }
}

/// The empty credentials every parse starts from.
pub open spec fn spec_empty_auth_model() -> AuthModel {
    AuthModel {
        access_token: Seq::<char>::empty(),
        refresh_token: Seq::<char>::empty(),
        expires_in: 0,
        cookies: Seq::<CookieModel>::empty(),
    }
}

/// The reading of a whole credential file: one JSON object, whitespace
/// around it, nothing after it.
pub open spec fn spec_parse_auth(s: Seq<u8>) -> Option<AuthModel> {
    let i = spec_skip_ws(s, 0);
    if 0 <= i < s.len() && s[i] == 123 {
        match spec_auth_members(s, i + 1, spec_empty_auth_model()) {
            Some((m, j)) => if 0 <= j <= s.len() && spec_skip_ws(s, j) == s.len() {
                Some(m)
            } else {
                None
            },
            None => None,
        }
    } else {
        None
    }
}

// ---------------------------------------------------------------------
// The executable reader.
// ---------------------------------------------------------------------

/// Skips a JSON string without decoding it.
fn skip_string(s: &Vec<u8>, i: usize) -> (r: Option<usize>)
    requires
        i <= s@.len(),
    ensures
        match r {
            Some(j) => spec_skip_string(s@, i as int) == Some(j as int) && j <= s@.len(),
            None => spec_skip_string(s@, i as int) is None,
        },
{
    if i >= s.len() || s[i] != 34 {
        return None;
    }
    let ghost mut acc = Seq::<u8>::empty();
    let mut j = i + 1;
    loop
        invariant
            i < s@.len(),
            s@[i as int] == 34,
            i + 1 <= j <= s@.len(),
            spec_string_body(s@, i as int + 1, Seq::<u8>::empty()) == spec_string_body(
                s@,
                j as int,
                acc,
            ),
        decreases s@.len() - j,
    {
        if j >= s.len() {
            return None;
        }
        let b = s[j];
        if b == 34 {
            return Some(j + 1);
        } else if b == 92 {
            if j + 1 >= s.len() {
                return None;
            }
            let e = s[j + 1];
            if e == 34 || e == 92 || e == 47 || e == 110 || e == 116 || e == 114 || e == 98 || e
                == 102 {
                proof {
                    let add: u8 = if e == 34 {
                        34
                    } else if e == 92 {
                        92
                    } else if e == 47 {
                        47
                    } else if e == 110 {
                        10
                    } else if e == 116 {
                        9
                    } else if e == 114 {
                        13
                    } else if e == 98 {
                        8
                    } else {
                        12
                    };
                    acc = acc.push(add);
                }
                j = j + 2;
            } else if e == 117 {
                if s.len() - j < 6 {
                    return None;
                }
                let h1 = hex_val(s[j + 2]);
                let h2 = hex_val(s[j + 3]);
                let h3 = hex_val(s[j + 4]);
                let h4 = hex_val(s[j + 5]);
                match (h1, h2, h3, h4) {
                    (Some(x), Some(y), Some(z), Some(w)) => {
                        let v: u32 = (x as u32) * 4096 + (y as u32) * 256 + (z as u32) * 16 + (
                        w as u32);
                        if v < 128 {
                            proof {
                                acc = acc.push(v as u8);
                            }
                            j = j + 6;
                        } else {
                            return None;
                        }
                    },
                    _ => {
                        return None;
                    },
                }
            } else {
                return None;
            }
        } else if b < 32 {
            return None;
        } else {
            proof {
                acc = acc.push(b);
            }
            j = j + 1;
        }
    }
}

/// Skips one unknown JSON value, nesting at most `depth` containers.
fn skip_value(s: &Vec<u8>, i: usize, depth: u32) -> (r: Option<usize>)
    requires
        i <= s@.len(),
    ensures
        match r {
            Some(j) => spec_skip_value(s@, i as int, depth as nat) == Some(j as int) && j
                <= s@.len(),
            None => spec_skip_value(s@, i as int, depth as nat) is None,
        },
    decreases depth,
{
    if i >= s.len() {
        return None;
    }
    let b = s[i];
    if b == 34 {
        skip_string(s, i)
    } else if b == 123 {
        if depth == 0 {
            return None;
        }
        let mut j = i + 1;
        loop
            invariant
                i < s@.len(),
                depth >= 1,
                i + 1 <= j <= s@.len(),
                spec_skip_value(s@, i as int, depth as nat) == spec_skip_members(
                    s@,
                    j as int,
                    (depth - 1) as nat,
                ),
                spec_skip_members(s@, i as int + 1, (depth - 1) as nat) == spec_skip_members(
                    s@,
                    j as int,
                    (depth - 1) as nat,
                ),
            decreases s@.len() - j,
        {
            let ghost jcur = j as int;
            let j1 = skip_ws(s, j);
            if j1 >= s.len() {
                return None;
            }
            if s[j1] == 125 {
                return Some(j1 + 1);
            }
            let j2 = match skip_string(s, j1) {
                Some(p) => p,
                None => {
                    return None;
                },
            };
            let j3 = skip_ws(s, j2);
            if j3 >= s.len() {
                return None;
            }
            let j3v = skip_ws(s, j3 + 1);
            if !(s[j3] == 58 && j3v > j) {
                return None;
            }
            let j4 = match skip_value(s, j3v, depth - 1) {
                Some(p) => p,
                None => {
                    return None;
                },
            };
            let j5 = skip_ws(s, j4);
            if j5 < s.len() && s[j5] == 44 && j5 >= j {
                j = j5 + 1;
            } else if j5 < s.len() && s[j5] == 125 {
                return Some(j5 + 1);
            } else {
                return None;
            }
        }
    } else if b == 91 {
        if depth == 0 {
            return None;
        }
        let mut j = i + 1;
        loop
            invariant
                i < s@.len(),
                depth >= 1,
                i + 1 <= j <= s@.len(),
                spec_skip_value(s@, i as int, depth as nat) == spec_skip_elements(
                    s@,
                    j as int,
                    (depth - 1) as nat,
                ),
            decreases s@.len() - j,
        {
            let j1 = skip_ws(s, j);
            if j1 >= s.len() {
                return None;
            }
            if s[j1] == 93 {
                return Some(j1 + 1);
            }
            if !(j1 >= j) {
                return None;
            }
            let j2 = match skip_value(s, j1, depth - 1) {
                Some(p) => p,
                None => {
                    return None;
                },
            };
            let j3 = skip_ws(s, j2);
            if j3 < s.len() && s[j3] == 44 && j3 >= j {
                j = j3 + 1;
            } else if j3 < s.len() && s[j3] == 93 {
                return Some(j3 + 1);
            } else {
                return None;
            }
        }
    } else if b == 116 {
        if s.len() - i >= 4 && s[i + 1] == 114 && s[i + 2] == 117 && s[i + 3] == 101 {
            Some(i + 4)
        } else {
            None
        }
    } else if b == 102 {
        if s.len() - i >= 5 && s[i + 1] == 97 && s[i + 2] == 108 && s[i + 3] == 115 && s[i + 4]
            == 101 {
            Some(i + 5)
        } else {
            None
        }
    } else if b == 110 {
        if s.len() - i >= 4 && s[i + 1] == 117 && s[i + 2] == 108 && s[i + 3] == 108 {
            Some(i + 4)
        } else {
            None
        }
    } else {
        match parse_int(s, i) {
            Some((_, j)) => Some(j),
            None => None,
        }
    }
}

/// Parses the token object at `i`.
fn parse_token(s: &Vec<u8>, i: usize) -> (r: Option<(TokenInfo, usize)>)
    requires
        i <= s@.len(),
    ensures
        match r {
            Some(p) => spec_parse_token(s@, i as int) == Some(
                ((p.0.access_token@, p.0.refresh_token@, p.0.expires_in), p.1 as int),
            ) && p.1 <= s@.len(),
            None => spec_parse_token(s@, i as int) is None,
        },
{
    if i >= s.len() || s[i] != 123 {
        return None;
    }
    let mut access = String::new();
    let mut refresh = String::new();
    let mut expires: i64 = 0;
    let mut j = i + 1;
    loop
        invariant
            i < s@.len(),
            s@[i as int] == 123,
            i + 1 <= j <= s@.len(),
            spec_token_members(
                s@,
                i as int + 1,
                (Seq::<char>::empty(), Seq::<char>::empty(), 0i64),
            ) == spec_token_members(s@, j as int, (access@, refresh@, expires)),
        decreases s@.len() - j,
    {
        let j1 = skip_ws(s, j);
        if j1 >= s.len() {
            return None;
        }
        if s[j1] == 125 {
            return Some(
                (
                    TokenInfo {
                        access_token: access,
                        refresh_token: refresh,
                        expires_in: expires,
                    },
                    j1 + 1,
                ),
            );
        }
        let (key, j2) = match parse_string(s, j1) {
            Some(p) => p,
            None => {
                return None;
            },
        };
        let j3 = skip_ws(s, j2);
        if !(j3 < s.len() && s[j3] == 58) {
            return None;
        }
        let j4v = skip_ws(s, j3 + 1);
        let j4: usize;
        if str_eq(key.as_str(), "access_token") {
            match parse_string(s, j4v) {
                Some((val, jj)) => {
                    access = val;
                    j4 = jj;
                },
                None => {
                    return None;
                },
            }
        } else if str_eq(key.as_str(), "refresh_token") {
            match parse_string(s, j4v) {
                Some((val, jj)) => {
                    refresh = val;
                    j4 = jj;
                },
                None => {
                    return None;
                },
            }
        } else if str_eq(key.as_str(), "expires_in") {
            match parse_int(s, j4v) {
                Some((val, jj)) => {
                    expires = val;
                    j4 = jj;
                },
                None => {
                    return None;
                },
            }
        } else {
            match skip_value(s, j4v, SKIP_DEPTH) {
                Some(jj) => {
                    j4 = jj;
                },
                None => {
                    return None;
                },
            }
        }
        let j5 = skip_ws(s, j4);
        if j5 < s.len() && s[j5] == 44 && j5 >= j {
            j = j5 + 1;
        } else if j5 < s.len() && s[j5] == 125 {
            return Some(
                (
                    TokenInfo {
                        access_token: access,
                        refresh_token: refresh,
                        expires_in: expires,
                    },
                    j5 + 1,
                ),
            );
        } else {
            return None;
        }
    }
}

/// Parses one cookie object at `i`.
fn parse_cookie(s: &Vec<u8>, i: usize) -> (r: Option<(Cookie, usize)>)
    requires
        i <= s@.len(),
    ensures
        match r {
            Some(p) => spec_parse_cookie(s@, i as int) == Some(
                (spec_cookie_model_of(p.0), p.1 as int),
            ) && p.1 <= s@.len(),
            None => spec_parse_cookie(s@, i as int) is None,
        },
{
    if i >= s.len() || s[i] != 123 {
        return None;
    }
    let mut name = String::new();
    let mut value = String::new();
    let mut domain = String::new();
    let mut expires: i64 = 0;
    let mut j = i + 1;
    loop
        invariant
            i < s@.len(),
            s@[i as int] == 123,
            i + 1 <= j <= s@.len(),
            spec_cookie_members(s@, i as int + 1, spec_empty_cookie_model())
                == spec_cookie_members(
                s@,
                j as int,
                CookieModel { name: name@, value: value@, domain: domain@, expires },
            ),
        decreases s@.len() - j,
    {
        let j1 = skip_ws(s, j);
        if j1 >= s.len() {
            return None;
        }
        if s[j1] == 125 {
            return Some((Cookie { name, value, domain, expires }, j1 + 1));
        }
        let (key, j2) = match parse_string(s, j1) {
            Some(p) => p,
            None => {
                return None;
            },
        };
        let j3 = skip_ws(s, j2);
        if !(j3 < s.len() && s[j3] == 58) {
            return None;
        }
        let j4v = skip_ws(s, j3 + 1);
        let j4: usize;
        if str_eq(key.as_str(), "name") {
            match parse_string(s, j4v) {
                Some((val, jj)) => {
                    name = val;
                    j4 = jj;
                },
                None => {
                    return None;
                },
            }
        } else if str_eq(key.as_str(), "value") {
            match parse_string(s, j4v) {
                Some((val, jj)) => {
                    value = val;
                    j4 = jj;
                },
                None => {
                    return None;
                },
            }
        } else if str_eq(key.as_str(), "domain") {
            match parse_string(s, j4v) {
                Some((val, jj)) => {
                    domain = val;
                    j4 = jj;
                },
                None => {
                    return None;
                },
            }
        } else if str_eq(key.as_str(), "expires") {
            match parse_int(s, j4v) {
                Some((val, jj)) => {
                    expires = val;
                    j4 = jj;
                },
                None => {
                    return None;
                },
            }
        } else {
            match skip_value(s, j4v, SKIP_DEPTH) {
                Some(jj) => {
                    j4 = jj;
                },
                None => {
                    return None;
                },
            }
        }
        let j5 = skip_ws(s, j4);
        if j5 < s.len() && s[j5] == 44 && j5 >= j {
            j = j5 + 1;
        } else if j5 < s.len() && s[j5] == 125 {
            return Some((Cookie { name, value, domain, expires }, j5 + 1));
        } else {
            return None;
        }
    }
}

/// Parses the cookie array, `i` standing on its `[`.
fn parse_cookie_array(s: &Vec<u8>, i: usize) -> (r: Option<(Vec<Cookie>, usize)>)
    requires
        i <= s@.len(),
    ensures
        match r {
            Some(p) => i < s@.len() && s@[i as int] == 91 && spec_cookie_elements(
                s@,
                i as int + 1,
                Seq::<CookieModel>::empty(),
            ) == Some((spec_cookie_models(p.0@), p.1 as int)) && p.1 <= s@.len(),
            None => (i < s@.len() && s@[i as int] == 91) ==> spec_cookie_elements(
                s@,
                i as int + 1,
                Seq::<CookieModel>::empty(),
            ) is None,
        },
{
    if i >= s.len() || s[i] != 91 {
        return None;
    }
    let mut out: Vec<Cookie> = Vec::new();
    let mut j = i + 1;
    proof {
        assert(spec_cookie_models(out@) =~= Seq::<CookieModel>::empty());
    }
    loop
        invariant
            i < s@.len(),
            s@[i as int] == 91,
            i + 1 <= j <= s@.len(),
            spec_cookie_elements(s@, i as int + 1, Seq::<CookieModel>::empty())
                == spec_cookie_elements(s@, j as int, spec_cookie_models(out@)),
        decreases s@.len() - j,
    {
        let j1 = skip_ws(s, j);
        if j1 >= s.len() {
            return None;
        }
        if s[j1] == 93 {
            return Some((out, j1 + 1));
        }
        let (c, j2) = match parse_cookie(s, j1) {
            Some(p) => p,
            None => {
                return None;
            },
        };
        let ghost cm = spec_cookie_model_of(c);
        let ghost old_out = out@;
        out.push(c);
        proof {
            let nv = spec_cookie_models(out@);
            let ov = spec_cookie_models(old_out);
            assert(ov.len() == old_out.len());
            assert(nv.len() == out@.len());
            assert forall|m: int| 0 <= m < nv.len() implies nv[m] == ov.push(cm)[m] by {
                if m < old_out.len() {
                    assert(nv[m] == ov[m]);
                } else {
                    assert(nv[m] == cm);
                }
            }
            assert(spec_cookie_models(out@) =~= spec_cookie_models(old_out).push(cm));
        }
        let j3 = skip_ws(s, j2);
        if j3 < s.len() && s[j3] == 44 && j3 >= j {
            j = j3 + 1;
        } else if j3 < s.len() && s[j3] == 93 {
            return Some((out, j3 + 1));
        } else {
            return None;
        }
    }
}

/// Reads a whole credential file: `None` on anything malformed, so a
/// corrupt file never fails the caller.
pub fn parse_auth_json(s: &Vec<u8>) -> (r: Option<AuthData>)
    ensures
        match r {
            Some(a) => spec_parse_auth(s@) == Some(spec_model_of(a)),
            None => spec_parse_auth(s@) is None,
        },
{
    let i = skip_ws(s, 0);
    if i >= s.len() || s[i] != 123 {
        return None;
    }
    let mut token = TokenInfo {
        access_token: String::new(),
        refresh_token: String::new(),
        expires_in: 0,
    };
    let mut cookies: Vec<Cookie> = Vec::new();
    let mut j = i + 1;
    proof {
        assert(spec_cookie_models(cookies@) =~= Seq::<CookieModel>::empty());
        assert(spec_model_of(AuthData { token, cookies }) == spec_empty_auth_model());
    }
    loop
        invariant
            i < s@.len(),
            s@[i as int] == 123,
            i as int == spec_skip_ws(s@, 0),
            i + 1 <= j <= s@.len(),
            spec_auth_members(s@, i as int + 1, spec_empty_auth_model()) == spec_auth_members(
                s@,
                j as int,
                AuthModel {
                    access_token: token.access_token@,
                    refresh_token: token.refresh_token@,
                    expires_in: token.expires_in,
                    cookies: spec_cookie_models(cookies@),
                },
            ),
        decreases s@.len() - j,
    {
        let j1 = skip_ws(s, j);
        if j1 >= s.len() {
            return None;
        }
        if s[j1] == 125 {
            let end = skip_ws(s, j1 + 1);
            if end == s.len() {
                return Some(AuthData { token, cookies });
            } else {
                return None;
            }
        }
        let (key, j2) = match parse_string(s, j1) {
            Some(p) => p,
            None => {
                return None;
            },
        };
        let j3 = skip_ws(s, j2);
        if !(j3 < s.len() && s[j3] == 58) {
            return None;
        }
        let j4v = skip_ws(s, j3 + 1);
        let j4: usize;
        if str_eq(key.as_str(), "token") {
            match parse_token(s, j4v) {
                Some((t, jj)) => {
                    token = t;
                    j4 = jj;
                },
                None => {
                    return None;
                },
            }
        } else if str_eq(key.as_str(), "cookies") {
            match parse_cookie_array(s, j4v) {
                Some((cs, jj)) => {
                    cookies = cs;
                    j4 = jj;
                },
                None => {
                    return None;
                },
            }
        } else {
            match skip_value(s, j4v, SKIP_DEPTH) {
                Some(jj) => {
                    j4 = jj;
                },
                None => {
                    return None;
                },
            }
        }
        let j5 = skip_ws(s, j4);
        if j5 < s.len() && s[j5] == 44 && j5 >= j {
            j = j5 + 1;
        } else if j5 < s.len() && s[j5] == 125 {
            let end = skip_ws(s, j5 + 1);
            if end == s.len() {
                return Some(AuthData { token, cookies });
            } else {
                return None;
            }
        } else {
            return None;
        }
    }
}

// ---------------------------------------------------------------------
// The deterministic writer: compact JSON, fields in a fixed order.
// ---------------------------------------------------------------------

/// How one byte of a string value is written: `"` and `\` escaped,
/// control bytes as `\u00XX`, everything else as itself.
pub open spec fn spec_esc_byte(b: u8) -> Seq<u8> {
    if b == 34 {
        seq![92u8, 34u8]
    } else if b == 92 {
        seq![92u8, 92u8]
    } else if b < 32 {
        seq![92u8, 117u8, 48u8, 48u8, spec_hex_digit(b / 16), spec_hex_digit(b % 16)]
    } else {
        seq![b]
    }
}

/// The escaped form of a byte string.
pub open spec fn spec_escape_bytes(bs: Seq<u8>) -> Seq<u8>
    decreases bs.len(),
{
    if bs.len() == 0 {
        Seq::<u8>::empty()
    } else {
        spec_escape_bytes(bs.drop_last()) + spec_esc_byte(bs.last())
    }
}

/// The JSON rendering of a string value.
pub open spec fn spec_json_string(sv: Seq<char>) -> Seq<u8> {
    seq![34u8] + spec_escape_bytes(encode_utf8(sv)) + seq![34u8]
}

/// The JSON rendering of one cookie.
pub open spec fn spec_cookie_json(c: Cookie) -> Seq<u8> {
    encode_utf8("{\"name\":"@) + spec_json_string(c.name@) + encode_utf8(",\"value\":"@)
        + spec_json_string(c.value@) + encode_utf8(",\"domain\":"@) + spec_json_string(c.domain@)
        + encode_utf8(",\"expires\":"@) + spec_dec_int(c.expires as int) + encode_utf8("}"@)
}

/// The JSON rendering of the cookie list, comma-joined.
pub open spec fn spec_cookies_json(cs: Seq<Cookie>) -> Seq<u8>
    decreases cs.len(),
{
    if cs.len() == 0 {
        Seq::<u8>::empty()
    } else if cs.len() == 1 {
        spec_cookie_json(cs[0])
    } else {
        spec_cookies_json(cs.drop_last()) + seq![44u8] + spec_cookie_json(cs.last())
    }
}

/// The JSON rendering of the token object, fields in a fixed order.
pub open spec fn spec_token_json(t: TokenInfo) -> Seq<u8> {
    encode_utf8("{\"access_token\":"@) + spec_json_string(t.access_token@) + encode_utf8(
        ",\"refresh_token\":"@,
    ) + spec_json_string(t.refresh_token@) + encode_utf8(",\"expires_in\":"@) + spec_dec_int(
        t.expires_in as int,
    ) + encode_utf8("}"@)
}

/// The JSON rendering of the whole credential file: the token first,
/// then the cookies, every field in a fixed order.
pub open spec fn spec_auth_json(a: AuthData) -> Seq<u8> {
    encode_utf8("{\"token\":"@) + spec_token_json(a.token) + encode_utf8(",\"cookies\":["@)
        + spec_cookies_json(a.cookies@) + encode_utf8("]}"@)
}

/// Appends the UTF-8 bytes of a literal.
fn push_bytes(out: &mut Vec<u8>, s: &str)
    ensures
        final(out)@ == old(out)@ + encode_utf8(s@),
{
    let b = s.as_bytes_vec();
    let mut k: usize = 0;
    let ghost base = out@;
    while k < b.len()
        invariant
            k <= b@.len(),
            b@ == encode_utf8(s@),
            out@ == base + b@.take(k as int),
        decreases b@.len() - k,
    {
        out.push(b[k]);
        proof {
            assert(b@.take(k as int + 1) =~= b@.take(k as int).push(b@[k as int]));
            assert(out@ =~= base + b@.take(k as int + 1));
        }
        k = k + 1;
    }
    proof {
        assert(b@.take(b@.len() as int) =~= b@);
    }
}

/// Appends a string value in its JSON form.
fn push_json_string(out: &mut Vec<u8>, s: &str)
    ensures
        final(out)@ == old(out)@ + spec_json_string(s@),
{
    let ghost base = out@;
    out.push(34);
    let b = s.as_bytes_vec();
    let mut k: usize = 0;
    while k < b.len()
        invariant
            k <= b@.len(),
            b@ == encode_utf8(s@),
            out@ == base + seq![34u8] + spec_escape_bytes(b@.take(k as int)),
        decreases b@.len() - k,
    {
        let c = b[k];
        if c == 34 {
            out.push(92);
            out.push(34);
        } else if c == 92 {
            out.push(92);
            out.push(92);
        } else if c < 32 {
            out.push(92);
            out.push(117);
            out.push(48);
            out.push(48);
            let hi = c / 16;
            let lo = c % 16;
            out.push(if hi < 10 { 48 + hi } else { 87 + hi });
            out.push(if lo < 10 { 48 + lo } else { 87 + lo });
        } else {
            out.push(c);
        }
        proof {
            let pre = b@.take(k as int + 1);
            assert(pre.drop_last() =~= b@.take(k as int));
            assert(pre.last() == c);
            assert(out@ =~= base + seq![34u8] + spec_escape_bytes(pre));
        }
        k = k + 1;
    }
    out.push(34);
    proof {
        assert(b@.take(b@.len() as int) =~= b@);
        assert(out@ =~= base + spec_json_string(s@));
    }
}

/// Appends a signed decimal.
fn push_dec_int(out: &mut Vec<u8>, n: i64)
    ensures
        final(out)@ == old(out)@ + spec_dec_int(n as int),
{
    let d = i64_to_dec(n);
    let mut k: usize = 0;
    let ghost base = out@;
    while k < d.len()
        invariant
            k <= d@.len(),
            d@ == spec_dec_int(n as int),
            out@ == base + d@.take(k as int),
        decreases d@.len() - k,
    {
        out.push(d[k]);
        proof {
            assert(d@.take(k as int + 1) =~= d@.take(k as int).push(d@[k as int]));
            assert(out@ =~= base + d@.take(k as int + 1));
        }
        k = k + 1;
    }
    proof {
        assert(d@.take(d@.len() as int) =~= d@);
    }
}

/// Appends one cookie in its JSON form.
fn push_cookie_json(out: &mut Vec<u8>, c: &Cookie)
    ensures
        final(out)@ == old(out)@ + spec_cookie_json(*c),
{
    push_bytes(out, "{\"name\":");
    push_json_string(out, c.name.as_str());
    push_bytes(out, ",\"value\":");
    push_json_string(out, c.value.as_str());
    push_bytes(out, ",\"domain\":");
    push_json_string(out, c.domain.as_str());
    push_bytes(out, ",\"expires\":");
    push_dec_int(out, c.expires);
    push_bytes(out, "}");
}

/// Writes the credential file deterministically: same credentials, same
/// bytes, with a stable field order.
#[verifier::rlimit(30)]
pub fn serialize_auth(a: &AuthData) -> (r: Vec<u8>)
    ensures
        r@ == spec_auth_json(*a),
{
    let mut out: Vec<u8> = Vec::new();
    push_bytes(&mut out, "{\"token\":");
    push_bytes(&mut out, "{\"access_token\":");
    push_json_string(&mut out, a.token.access_token.as_str());
    push_bytes(&mut out, ",\"refresh_token\":");
    push_json_string(&mut out, a.token.refresh_token.as_str());
    push_bytes(&mut out, ",\"expires_in\":");
    push_dec_int(&mut out, a.token.expires_in);
    push_bytes(&mut out, "}");
    push_bytes(&mut out, ",\"cookies\":[");
    let ghost base = out@;
    let mut k: usize = 0;
    proof {
        assert(spec_cookies_json(a.cookies@.take(0int)) =~= Seq::<u8>::empty());
        assert(out@ =~= base + spec_cookies_json(a.cookies@.take(0int)));
    }
    while k < a.cookies.len()
        invariant
            k <= a.cookies@.len(),
            out@ == base + spec_cookies_json(a.cookies@.take(k as int)),
        decreases a.cookies@.len() - k,
    {
        if k > 0 {
            out.push(44);
        }
        push_cookie_json(&mut out, &a.cookies[k]);
        proof {
            let pre = a.cookies@.take(k as int + 1);
            assert(pre.drop_last() =~= a.cookies@.take(k as int));
            assert(pre.last() == a.cookies@[k as int]);
            if k == 0 {
                assert(pre.len() == 1);
                assert(pre[0] == a.cookies@[0]);
                assert(out@ =~= base + spec_cookies_json(pre));
            } else {
                assert(out@ =~= base + spec_cookies_json(pre));
            }
        }
        k = k + 1;
    }
    proof {
        assert(a.cookies@.take(a.cookies@.len() as int) =~= a.cookies@);
    }
    push_bytes(&mut out, "]}");
    proof {
        assert(out@ =~= spec_auth_json(*a));
    }
    out
}

// ---------------------------------------------------------------------
// The writer and the reader cohere: a written file reads back as the
// very credentials it came from.
// ---------------------------------------------------------------------

/// Escaping splits over concatenation.
proof fn lemma_escape_append(b1: Seq<u8>, b2: Seq<u8>)
    ensures
        spec_escape_bytes(b1 + b2) == spec_escape_bytes(b1) + spec_escape_bytes(b2),
    decreases b2.len(),
{
    if b2.len() == 0 {
        assert(b1 + b2 =~= b1);
        assert(spec_escape_bytes(b1) + spec_escape_bytes(b2) =~= spec_escape_bytes(b1));
    } else {
        lemma_escape_append(b1, b2.drop_last());
        assert((b1 + b2).drop_last() =~= b1 + b2.drop_last());
        assert((b1 + b2).last() == b2.last());
        assert(spec_escape_bytes(b1) + spec_escape_bytes(b2) =~= spec_escape_bytes(b1)
            + spec_escape_bytes(b2.drop_last()) + spec_esc_byte(b2.last()));
    }
}

/// Escaping peels its first byte.
proof fn lemma_escape_first(bs: Seq<u8>)
    requires
        bs.len() > 0,
    ensures
        spec_escape_bytes(bs) == spec_esc_byte(bs[0]) + spec_escape_bytes(bs.drop_first()),
{
    let head = seq![bs[0]];
    assert(bs =~= head + bs.drop_first());
    lemma_escape_append(head, bs.drop_first());
    assert(head.drop_last() =~= Seq::<u8>::empty());
    assert(spec_escape_bytes(head) == spec_escape_bytes(head.drop_last()) + spec_esc_byte(bs[0]));
    assert(spec_escape_bytes(head) =~= spec_esc_byte(bs[0]));
}

/// A written hex digit reads back as its value.
proof fn lemma_hex_digit_val(n: u8)
    requires
        n < 16,
    ensures
        spec_hex_val(spec_hex_digit(n)) == Some(n),
{
}

/// Reading an escaped byte string: the scan undoes the escaping and
/// stops at the closing quote that follows it.
proof fn lemma_body_of_escaped(s: Seq<u8>, i: int, bs: Seq<u8>, acc: Seq<u8>)
    requires
        0 <= i,
        i + spec_escape_bytes(bs).len() + 1 <= s.len(),
        s.subrange(i, i + spec_escape_bytes(bs).len() as int) == spec_escape_bytes(bs),
        s[i + spec_escape_bytes(bs).len() as int] == 34,
    ensures
        spec_string_body(s, i, acc) == Some(
            (acc + bs, i + spec_escape_bytes(bs).len() + 1),
        ),
    decreases bs.len(),
{
    let esc = spec_escape_bytes(bs);
    if bs.len() == 0 {
        assert(esc =~= Seq::<u8>::empty());
        assert(s[i] == 34);
        assert(acc + bs =~= acc);
    } else {
        let b = bs[0];
        let rest = bs.drop_first();
        lemma_escape_first(bs);
        let eb = spec_esc_byte(b);
        let esc_rest = spec_escape_bytes(rest);
        assert(esc == eb + esc_rest);
        assert forall|k: int| 0 <= k < esc.len() implies s[i + k] == #[trigger] esc[k] by {
            assert(s.subrange(i, i + esc.len() as int)[k] == s[i + k]);
        }
        assert forall|k: int| 0 <= k < eb.len() implies esc[k] == #[trigger] eb[k] by {
            assert((eb + esc_rest)[k] == eb[k]);
        }
        let i2 = i + eb.len();
        assert forall|k: int|
            0 <= k < esc_rest.len() implies s.subrange(i2, i2 + esc_rest.len() as int)[k]
            == esc_rest[k] by {
            assert(s[i2 + k] == esc[eb.len() + k]);
            assert(esc[eb.len() + k] == (eb + esc_rest)[eb.len() + k]);
            assert((eb + esc_rest)[eb.len() + k] == esc_rest[k]);
        }
        assert(s.subrange(i2, i2 + esc_rest.len() as int) =~= esc_rest);
        assert(s[i2 + esc_rest.len() as int] == 34);
        if b == 34 {
            assert(s[i] == 92 && s[i + 1] == 34);
            lemma_body_of_escaped(s, i + 2, rest, acc.push(34));
            assert(acc.push(34) + rest =~= acc + bs);
        } else if b == 92 {
            assert(s[i] == 92 && s[i + 1] == 92);
            lemma_body_of_escaped(s, i + 2, rest, acc.push(92));
            assert(acc.push(92) + rest =~= acc + bs);
        } else if b < 32 {
            assert(s[i] == 92 && s[i + 1] == 117);
            assert(s[i + 2] == 48 && s[i + 3] == 48);
            assert(s[i + 4] == spec_hex_digit(b / 16));
            assert(s[i + 5] == spec_hex_digit(b % 16));
            lemma_hex_digit_val(b / 16);
            lemma_hex_digit_val(b % 16);
            assert(spec_u16_escape(s[i + 2], s[i + 3], s[i + 4], s[i + 5]) == Some(b as u32));
            lemma_body_of_escaped(s, i + 6, rest, acc.push(b));
            assert(acc.push(b) + rest =~= acc + bs);
        } else {
            assert(eb =~= seq![b]);
            assert(esc[0] == b);
            assert(s[i] == b);
            assert(b != 34 && b != 92 && b >= 32);
            lemma_body_of_escaped(s, i + 1, rest, acc.push(b));
            assert(acc.push(b) + rest =~= acc + bs);
        }
    }
}

/// The length of a rendered string value.
pub open spec fn spec_json_string_len(sv: Seq<char>) -> int {
    spec_json_string(sv).len() as int
}

/// Reading a written string value yields the characters it came from.
proof fn lemma_parse_string_of_json(s: Seq<u8>, i: int, sv: Seq<char>)
    requires
        0 <= i,
        i + spec_json_string_len(sv) <= s.len(),
        s.subrange(i, i + spec_json_string_len(sv)) == spec_json_string(sv),
    ensures
        spec_parse_string(s, i) == Some((sv, i + spec_json_string_len(sv))),
{
    let bs = encode_utf8(sv);
    let esc = spec_escape_bytes(bs);
    let js = spec_json_string(sv);
    assert(js.len() == esc.len() + 2);
    assert forall|k: int| 0 <= k < js.len() implies s[i + k] == #[trigger] js[k] by {
        assert(s.subrange(i, i + spec_json_string_len(sv))[k] == s[i + k]);
    }
    assert(js[0] == (seq![34u8] + esc)[0]);
    assert(s[i] == 34);
    assert forall|k: int|
        0 <= k < esc.len() implies s.subrange(i + 1, i + 1 + esc.len() as int)[k] == esc[k] by {
        assert(s[i + 1 + k] == js[1 + k]);
        assert(js[1 + k] == (seq![34u8] + esc)[1 + k]);
        assert((seq![34u8] + esc)[1 + k] == esc[k]);
    }
    assert(s.subrange(i + 1, i + 1 + esc.len() as int) =~= esc);
    assert(js[js.len() - 1] == 34);
    assert(s[i + 1 + esc.len() as int] == js[js.len() - 1]);
    lemma_body_of_escaped(s, i + 1, bs, Seq::<u8>::empty());
    assert(Seq::<u8>::empty() + bs =~= bs);
    vstd::utf8::encode_utf8_valid_utf8(sv);
    encode_utf8_decode_utf8(sv);
}

/// Escaping leaves a string of plain bytes unchanged.
proof fn lemma_escape_plain(bs: Seq<u8>)
    requires
        forall|k: int| 0 <= k < bs.len() ==> 32 <= #[trigger] bs[k] && bs[k] != 34 && bs[k] != 92,
    ensures
        spec_escape_bytes(bs) == bs,
    decreases bs.len(),
{
    if bs.len() == 0 {
        assert(spec_escape_bytes(bs) =~= bs);
    } else {
        lemma_escape_plain(bs.drop_last());
        assert(spec_esc_byte(bs.last()) =~= seq![bs.last()]);
        assert(spec_escape_bytes(bs) =~= bs.drop_last().push(bs.last()));
        assert(bs.drop_last().push(bs.last()) =~= bs);
    }
}

/// Reading a quoted plain ASCII key yields exactly that key.
proof fn lemma_key_string_at(s: Seq<u8>, i: int, key: Seq<char>)
    requires
        0 <= i,
        i + key.len() + 2 <= s.len(),
        vstd::utf8::is_ascii_chars(key),
        forall|k: int| 0 <= k < key.len() ==> ' ' <= #[trigger] key[k] && key[k] != '"' && key[k]
            != '\\',
        s[i] == 34,
        s[i + key.len() + 1] == 34,
        forall|k: int| 0 <= k < key.len() ==> s[i + 1 + k] == (#[trigger] key[k]) as u8,
    ensures
        spec_parse_string(s, i) == Some((key, i + key.len() + 2)),
{
    let bs = encode_utf8(key);
    vstd::utf8::is_ascii_chars_encode_utf8(key);
    assert forall|k: int| 0 <= k < bs.len() implies 32 <= #[trigger] bs[k] && bs[k] != 34
        && bs[k] != 92 by {
        assert(bs[k] == key[k] as u8);
    }
    lemma_escape_plain(bs);
    let js = spec_json_string(key);
    assert(js.len() == key.len() + 2);
    assert forall|k: int| 0 <= k < js.len() implies s.subrange(i, i + js.len() as int)[k]
        == js[k] by {
        assert(s.subrange(i, i + js.len() as int)[k] == s[i + k]);
        if k == 0 {
            assert(js[0] == (seq![34u8] + bs)[0]);
        } else if k < js.len() - 1 {
            assert(js[k] == (seq![34u8] + bs)[k]);
            assert((seq![34u8] + bs)[k] == bs[k - 1]);
            assert(s[i + k] == key[k - 1] as u8);
        } else {
            assert(js[k] == 34);
        }
    }
    assert(s.subrange(i, i + js.len() as int) =~= js);
    lemma_parse_string_of_json(s, i, key);
}

/// Reading a written token object yields the fields it came from.
#[verifier::rlimit(100)]
#[verifier::spinoff_prover]
proof fn lemma_parse_token_at(s: Seq<u8>, i: int, t: TokenInfo)
    requires
        0 <= i,
        i + spec_token_json(t).len() <= s.len(),
        s.subrange(i, i + spec_token_json(t).len() as int) == spec_token_json(t),
    ensures
        spec_parse_token(s, i) == Some(
            ((t.access_token@, t.refresh_token@, t.expires_in), i + spec_token_json(t).len()),
        ),
{
    reveal_strlit("{\"access_token\":");
    reveal_strlit(",\"refresh_token\":");
    reveal_strlit(",\"expires_in\":");
    reveal_strlit("}");
    reveal_strlit("access_token");
    reveal_strlit("refresh_token");
    reveal_strlit("expires_in");
    let l1 = "{\"access_token\":"@;
    let l2 = ",\"refresh_token\":"@;
    let l3 = ",\"expires_in\":"@;
    let l4 = "}"@;
    assert(vstd::utf8::is_ascii_chars(l1));
    assert(vstd::utf8::is_ascii_chars(l2));
    assert(vstd::utf8::is_ascii_chars(l3));
    assert(vstd::utf8::is_ascii_chars(l4));
    vstd::utf8::is_ascii_chars_encode_utf8(l1);
    vstd::utf8::is_ascii_chars_encode_utf8(l2);
    vstd::utf8::is_ascii_chars_encode_utf8(l3);
    vstd::utf8::is_ascii_chars_encode_utf8(l4);
    let h1 = encode_utf8(l1);
    let js1 = spec_json_string(t.access_token@);
    let h2 = encode_utf8(l2);
    let js2 = spec_json_string(t.refresh_token@);
    let h3 = encode_utf8(l3);
    let d = spec_dec_int(t.expires_in as int);
    let h4 = encode_utf8(l4);
    let tj = spec_token_json(t);
    let p1 = h1 + js1;
    let p2 = p1 + h2;
    let p3 = p2 + js2;
    let p4 = p3 + h3;
    let p5 = p4 + d;
    assert(tj == p5 + h4);
    assert(h1.len() == 16 && h2.len() == 17 && h3.len() == 14 && h4.len() == 1);
    let la = js1.len() as int;
    let lr = js2.len() as int;
    let ld = d.len() as int;
    assert(tj.len() == 48 + la + lr + ld);
    assert forall|k: int| 0 <= k < tj.len() implies s[i + k] == #[trigger] tj[k] by {
        assert(s.subrange(i, i + tj.len() as int)[k] == s[i + k]);
    }
    assert forall|k: int| 0 <= k < 16 implies tj[k] == #[trigger] h1[k] by {
        assert(tj[k] == p5[k] && p5[k] == p4[k] && p4[k] == p3[k] && p3[k] == p2[k] && p2[k]
            == p1[k] && p1[k] == h1[k]);
    }
    assert forall|k: int| 0 <= k < la implies tj[16 + k] == #[trigger] js1[k] by {
        assert(tj[16 + k] == p5[16 + k] && p5[16 + k] == p4[16 + k] && p4[16 + k] == p3[16 + k]
            && p3[16 + k] == p2[16 + k] && p2[16 + k] == p1[16 + k] && p1[16 + k] == js1[k]);
    }
    assert forall|k: int| 0 <= k < 17 implies tj[16 + la + k] == #[trigger] h2[k] by {
        assert(tj[16 + la + k] == p5[16 + la + k] && p5[16 + la + k] == p4[16 + la + k] && p4[16
            + la + k] == p3[16 + la + k] && p3[16 + la + k] == p2[16 + la + k] && p2[16 + la + k]
            == h2[k]);
    }
    assert forall|k: int| 0 <= k < lr implies tj[33 + la + k] == #[trigger] js2[k] by {
        assert(tj[33 + la + k] == p5[33 + la + k] && p5[33 + la + k] == p4[33 + la + k] && p4[33
            + la + k] == p3[33 + la + k] && p3[33 + la + k] == js2[k]);
    }
    assert forall|k: int| 0 <= k < 14 implies tj[33 + la + lr + k] == #[trigger] h3[k] by {
        assert(tj[33 + la + lr + k] == p5[33 + la + lr + k] && p5[33 + la + lr + k] == p4[33 + la
            + lr + k] && p4[33 + la + lr + k] == h3[k]);
    }
    assert forall|k: int| 0 <= k < ld implies tj[47 + la + lr + k] == #[trigger] d[k] by {
        assert(tj[47 + la + lr + k] == p5[47 + la + lr + k] && p5[47 + la + lr + k] == d[k]);
    }
    assert(tj[47 + la + lr + ld] == h4[0]);
    // the opening brace
    assert(h1[0] == l1[0] as u8);
    assert(s[i] == 123);
    // first member: access_token
    let ka = "access_token"@;
    let ia = i + 1;
    assert(tj[1] == h1[1] && h1[1] == l1[1] as u8);
    assert(s[ia] == 34);
    assert(spec_skip_ws(s, ia) == ia);
    assert(tj[14] == h1[14] && h1[14] == l1[14] as u8);
    assert(s[ia + 13] == 34);
    assert forall|k: int| 0 <= k < 12 implies s[ia + 1 + k] == (#[trigger] ka[k]) as u8 by {
        assert(s[ia + 1 + k] == tj[2 + k]);
        assert(tj[2 + k] == h1[2 + k]);
        assert(h1[2 + k] == l1[2 + k] as u8);
    }
    lemma_key_string_at(s, ia, ka);
    assert(tj[15] == h1[15] && h1[15] == l1[15] as u8);
    assert(s[i + 15] == 58);
    assert(spec_skip_ws(s, i + 15) == i + 15);
    assert(js1[0] == (seq![34u8] + spec_escape_bytes(encode_utf8(t.access_token@)))[0]);
    assert(s[i + 16] == 34);
    assert(spec_skip_ws(s, i + 16) == i + 16);
    assert forall|k: int| 0 <= k < la implies s.subrange(i + 16, i + 16 + la)[k] == js1[k] by {
        assert(s.subrange(i + 16, i + 16 + la)[k] == s[i + 16 + k]);
        assert(s[i + 16 + k] == tj[16 + k]);
    }
    assert(s.subrange(i + 16, i + 16 + la) =~= js1);
    lemma_parse_string_of_json(s, i + 16, t.access_token@);
    assert(ka.len() == 12 && "refresh_token"@.len() == 13 && "expires_in"@.len() == 10);
    let acc0 = (Seq::<char>::empty(), Seq::<char>::empty(), 0i64);
    let acc1 = (t.access_token@, Seq::<char>::empty(), 0i64);
    assert(spec_token_member_value(s, i + 16, ka, acc0) == Some((acc1, i + 16 + la)));
    // the comma after it
    assert(h2[0] == l2[0] as u8);
    assert(s[i + 16 + la] == 44);
    assert(spec_skip_ws(s, i + 16 + la) == i + 16 + la);
    assert(spec_token_members(s, ia, acc0) == spec_token_members(s, i + 17 + la, acc1));
    // second member: refresh_token
    let kr = "refresh_token"@;
    let ib = i + 17 + la;
    assert(tj[16 + la + 1] == h2[1] && h2[1] == l2[1] as u8);
    assert(s[ib] == 34);
    assert(spec_skip_ws(s, ib) == ib);
    assert(tj[16 + la + 15] == h2[15] && h2[15] == l2[15] as u8);
    assert(s[ib + 14] == 34);
    assert forall|k: int| 0 <= k < 13 implies s[ib + 1 + k] == (#[trigger] kr[k]) as u8 by {
        assert(s[ib + 1 + k] == tj[16 + la + 2 + k]);
        assert(tj[16 + la + 2 + k] == h2[2 + k]);
        assert(h2[2 + k] == l2[2 + k] as u8);
    }
    lemma_key_string_at(s, ib, kr);
    assert(tj[16 + la + 16] == h2[16] && h2[16] == l2[16] as u8);
    assert(s[ib + 15] == 58);
    assert(spec_skip_ws(s, ib + 15) == ib + 15);
    assert(js2[0] == (seq![34u8] + spec_escape_bytes(encode_utf8(t.refresh_token@)))[0]);
    assert(s[ib + 16] == 34);
    assert(spec_skip_ws(s, ib + 16) == ib + 16);
    assert forall|k: int| 0 <= k < lr implies s.subrange(ib + 16, ib + 16 + lr)[k] == js2[k] by {
        assert(s.subrange(ib + 16, ib + 16 + lr)[k] == s[ib + 16 + k]);
        assert(s[ib + 16 + k] == tj[33 + la + k]);
    }
    assert(s.subrange(ib + 16, ib + 16 + lr) =~= js2);
    lemma_parse_string_of_json(s, ib + 16, t.refresh_token@);
    let acc2 = (t.access_token@, t.refresh_token@, 0i64);
    assert(kr != ka);
    assert(spec_token_member_value(s, ib + 16, kr, acc1) == Some((acc2, ib + 16 + lr)));
    assert(h3[0] == l3[0] as u8);
    assert(s[ib + 16 + lr] == 44);
    assert(spec_skip_ws(s, ib + 16 + lr) == ib + 16 + lr);
    assert(spec_token_members(s, ib, acc1) == spec_token_members(s, ib + 17 + lr, acc2));
    // third member: expires_in
    let ke = "expires_in"@;
    let ic = ib + 17 + lr;
    assert(ic == i + 34 + la + lr);
    assert(tj[33 + la + lr + 1] == h3[1] && h3[1] == l3[1] as u8);
    assert(s[ic] == 34);
    assert(spec_skip_ws(s, ic) == ic);
    assert(tj[33 + la + lr + 12] == h3[12] && h3[12] == l3[12] as u8);
    assert(s[ic + 11] == 34);
    assert forall|k: int| 0 <= k < 10 implies s[ic + 1 + k] == (#[trigger] ke[k]) as u8 by {
        assert(s[ic + 1 + k] == tj[33 + la + lr + 2 + k]);
        assert(tj[33 + la + lr + 2 + k] == h3[2 + k]);
        assert(h3[2 + k] == l3[2 + k] as u8);
    }
    lemma_key_string_at(s, ic, ke);
    assert(tj[33 + la + lr + 13] == h3[13] && h3[13] == l3[13] as u8);
    assert(s[ic + 12] == 58);
    assert(spec_skip_ws(s, ic + 12) == ic + 12);
    crate::text::lemma_dec_nat_digits(
        if t.expires_in >= 0 {
            t.expires_in as nat
        } else {
            (-(t.expires_in as int)) as nat
        },
    );
    assert(spec_is_digit(d[0]) || d[0] == 45);
    assert(tj[47 + la + lr + 0] == d[0]);
    assert(s[ic + 13] == d[0]);
    assert(!spec_is_ws(s[ic + 13]));
    assert(spec_skip_ws(s, ic + 13) == ic + 13);
    assert forall|k: int| 0 <= k < ld implies s.subrange(ic + 13, ic + 13 + ld)[k] == d[k] by {
        assert(s.subrange(ic + 13, ic + 13 + ld)[k] == s[ic + 13 + k]);
        assert(s[ic + 13 + k] == tj[47 + la + lr + k]);
    }
    assert(s.subrange(ic + 13, ic + 13 + ld) =~= d);
    assert(h4[0] == l4[0] as u8);
    assert(s[ic + 13 + ld] == 125);
    assert(!spec_is_digit(s[ic + 13 + ld]));
    lemma_parse_int_at(s, ic + 13, t.expires_in);
    let acc3 = (t.access_token@, t.refresh_token@, t.expires_in);
    assert(ke != ka && ke != kr);
    assert(spec_token_member_value(s, ic + 13, ke, acc2) == Some((acc3, ic + 13 + ld)));
    // the closing brace ends the object
    assert(spec_skip_ws(s, ic + 13 + ld) == ic + 13 + ld);
    assert(spec_token_members(s, ic, acc2) == Some((acc3, ic + 14 + ld)));
    assert(ic + 14 + ld == i + tj.len());
    assert(spec_parse_token(s, i) == spec_token_members(s, i + 1, acc0));
}

/// Reading a written cookie object yields the cookie it came from.
#[verifier::rlimit(100)]
#[verifier::spinoff_prover]
proof fn lemma_parse_cookie_at(s: Seq<u8>, i: int, c: Cookie)
    requires
        0 <= i,
        i + spec_cookie_json(c).len() <= s.len(),
        s.subrange(i, i + spec_cookie_json(c).len() as int) == spec_cookie_json(c),
    ensures
        spec_parse_cookie(s, i) == Some((spec_cookie_model_of(c), i + spec_cookie_json(c).len())),
{
    reveal_strlit("{\"name\":");
    reveal_strlit(",\"value\":");
    reveal_strlit(",\"domain\":");
    reveal_strlit(",\"expires\":");
    reveal_strlit("}");
    reveal_strlit("name");
    reveal_strlit("value");
    reveal_strlit("domain");
    reveal_strlit("expires");
    let l1 = "{\"name\":"@;
    let l2 = ",\"value\":"@;
    let l3 = ",\"domain\":"@;
    let l4 = ",\"expires\":"@;
    let l5 = "}"@;
    assert(vstd::utf8::is_ascii_chars(l1));
    assert(vstd::utf8::is_ascii_chars(l2));
    assert(vstd::utf8::is_ascii_chars(l3));
    assert(vstd::utf8::is_ascii_chars(l4));
    assert(vstd::utf8::is_ascii_chars(l5));
    vstd::utf8::is_ascii_chars_encode_utf8(l1);
    vstd::utf8::is_ascii_chars_encode_utf8(l2);
    vstd::utf8::is_ascii_chars_encode_utf8(l3);
    vstd::utf8::is_ascii_chars_encode_utf8(l4);
    vstd::utf8::is_ascii_chars_encode_utf8(l5);
    let h1 = encode_utf8(l1);
    let jn = spec_json_string(c.name@);
    let h2 = encode_utf8(l2);
    let jv = spec_json_string(c.value@);
    let h3 = encode_utf8(l3);
    let jd = spec_json_string(c.domain@);
    let h4 = encode_utf8(l4);
    let dd = spec_dec_int(c.expires as int);
    let h5 = encode_utf8(l5);
    let cj = spec_cookie_json(c);
    let p1 = h1 + jn;
    let p2 = p1 + h2;
    let p3 = p2 + jv;
    let p4 = p3 + h3;
    let p5 = p4 + jd;
    let p6 = p5 + h4;
    let p7 = p6 + dd;
    assert(cj == p7 + h5);
    assert(h1.len() == 8 && h2.len() == 9 && h3.len() == 10 && h4.len() == 11 && h5.len() == 1);
    let ln = jn.len() as int;
    let lv = jv.len() as int;
    let ldm = jd.len() as int;
    let le = dd.len() as int;
    assert(cj.len() == 39 + ln + lv + ldm + le);
    assert forall|k: int| 0 <= k < cj.len() implies s[i + k] == #[trigger] cj[k] by {
        assert(s.subrange(i, i + cj.len() as int)[k] == s[i + k]);
    }
    assert forall|k: int| 0 <= k < 8 implies cj[k] == #[trigger] h1[k] by {
        assert(cj[k] == p7[k] && p7[k] == p6[k] && p6[k] == p5[k] && p5[k] == p4[k] && p4[k]
            == p3[k] && p3[k] == p2[k] && p2[k] == p1[k] && p1[k] == h1[k]);
    }
    assert forall|k: int| 0 <= k < ln implies cj[8 + k] == #[trigger] jn[k] by {
        assert(cj[8 + k] == p7[8 + k] && p7[8 + k] == p6[8 + k] && p6[8 + k] == p5[8 + k] && p5[8
            + k] == p4[8 + k] && p4[8 + k] == p3[8 + k] && p3[8 + k] == p2[8 + k] && p2[8 + k]
            == p1[8 + k] && p1[8 + k] == jn[k]);
    }
    assert forall|k: int| 0 <= k < 9 implies cj[8 + ln + k] == #[trigger] h2[k] by {
        assert(cj[8 + ln + k] == p7[8 + ln + k] && p7[8 + ln + k] == p6[8 + ln + k] && p6[8 + ln
            + k] == p5[8 + ln + k] && p5[8 + ln + k] == p4[8 + ln + k] && p4[8 + ln + k] == p3[8
            + ln + k] && p3[8 + ln + k] == p2[8 + ln + k] && p2[8 + ln + k] == h2[k]);
    }
    assert forall|k: int| 0 <= k < lv implies cj[17 + ln + k] == #[trigger] jv[k] by {
        assert(cj[17 + ln + k] == p7[17 + ln + k] && p7[17 + ln + k] == p6[17 + ln + k] && p6[17
            + ln + k] == p5[17 + ln + k] && p5[17 + ln + k] == p4[17 + ln + k] && p4[17 + ln + k]
            == p3[17 + ln + k] && p3[17 + ln + k] == jv[k]);
    }
    assert forall|k: int| 0 <= k < 10 implies cj[17 + ln + lv + k] == #[trigger] h3[k] by {
        assert(cj[17 + ln + lv + k] == p7[17 + ln + lv + k] && p7[17 + ln + lv + k] == p6[17 + ln
            + lv + k] && p6[17 + ln + lv + k] == p5[17 + ln + lv + k] && p5[17 + ln + lv + k]
            == p4[17 + ln + lv + k] && p4[17 + ln + lv + k] == h3[k]);
    }
    assert forall|k: int| 0 <= k < ldm implies cj[27 + ln + lv + k] == #[trigger] jd[k] by {
        assert(cj[27 + ln + lv + k] == p7[27 + ln + lv + k] && p7[27 + ln + lv + k] == p6[27 + ln
            + lv + k] && p6[27 + ln + lv + k] == p5[27 + ln + lv + k] && p5[27 + ln + lv + k]
            == jd[k]);
    }
    assert forall|k: int| 0 <= k < 11 implies cj[27 + ln + lv + ldm + k] == #[trigger] h4[k] by {
        assert(cj[27 + ln + lv + ldm + k] == p7[27 + ln + lv + ldm + k] && p7[27 + ln + lv + ldm
            + k] == p6[27 + ln + lv + ldm + k] && p6[27 + ln + lv + ldm + k] == h4[k]);
    }
    assert forall|k: int| 0 <= k < le implies cj[38 + ln + lv + ldm + k] == #[trigger] dd[k] by {
        assert(cj[38 + ln + lv + ldm + k] == p7[38 + ln + lv + ldm + k] && p7[38 + ln + lv + ldm
            + k] == dd[k]);
    }
    assert(cj[38 + ln + lv + ldm + le] == h5[0]);
    assert(h1[0] == l1[0] as u8);
    assert(s[i] == 123);
    // member: name
    let kn = "name"@;
    let ia = i + 1;
    assert(cj[1] == h1[1] && h1[1] == l1[1] as u8);
    assert(s[ia] == 34);
    assert(spec_skip_ws(s, ia) == ia);
    assert(cj[6] == h1[6] && h1[6] == l1[6] as u8);
    assert(s[ia + 5] == 34);
    assert forall|k: int| 0 <= k < 4 implies s[ia + 1 + k] == (#[trigger] kn[k]) as u8 by {
        assert(s[ia + 1 + k] == cj[2 + k]);
        assert(cj[2 + k] == h1[2 + k]);
        assert(h1[2 + k] == l1[2 + k] as u8);
    }
    lemma_key_string_at(s, ia, kn);
    assert(cj[7] == h1[7] && h1[7] == l1[7] as u8);
    assert(s[i + 7] == 58);
    assert(spec_skip_ws(s, i + 7) == i + 7);
    assert(jn[0] == (seq![34u8] + spec_escape_bytes(encode_utf8(c.name@)))[0]);
    assert(s[i + 8] == 34);
    assert(spec_skip_ws(s, i + 8) == i + 8);
    assert forall|k: int| 0 <= k < ln implies s.subrange(i + 8, i + 8 + ln)[k] == jn[k] by {
        assert(s.subrange(i + 8, i + 8 + ln)[k] == s[i + 8 + k]);
        assert(s[i + 8 + k] == cj[8 + k]);
    }
    assert(s.subrange(i + 8, i + 8 + ln) =~= jn);
    lemma_parse_string_of_json(s, i + 8, c.name@);
    assert(kn.len() == 4 && "value"@.len() == 5 && "domain"@.len() == 6 && "expires"@.len() == 7);
    let acc0 = spec_empty_cookie_model();
    let acc1 = CookieModel { name: c.name@, ..acc0 };
    assert(spec_cookie_member_value(s, i + 8, kn, acc0) == Some((acc1, i + 8 + ln)));
    assert(h2[0] == l2[0] as u8);
    assert(s[i + 8 + ln] == 44);
    assert(spec_skip_ws(s, i + 8 + ln) == i + 8 + ln);
    assert(spec_cookie_members(s, ia, acc0) == spec_cookie_members(s, i + 9 + ln, acc1));
    // member: value
    let kv = "value"@;
    let ib = i + 9 + ln;
    assert(cj[8 + ln + 1] == h2[1] && h2[1] == l2[1] as u8);
    assert(s[ib] == 34);
    assert(spec_skip_ws(s, ib) == ib);
    assert(cj[8 + ln + 7] == h2[7] && h2[7] == l2[7] as u8);
    assert(s[ib + 6] == 34);
    assert forall|k: int| 0 <= k < 5 implies s[ib + 1 + k] == (#[trigger] kv[k]) as u8 by {
        assert(s[ib + 1 + k] == cj[8 + ln + 2 + k]);
        assert(cj[8 + ln + 2 + k] == h2[2 + k]);
        assert(h2[2 + k] == l2[2 + k] as u8);
    }
    lemma_key_string_at(s, ib, kv);
    assert(cj[8 + ln + 8] == h2[8] && h2[8] == l2[8] as u8);
    assert(s[ib + 7] == 58);
    assert(spec_skip_ws(s, ib + 7) == ib + 7);
    assert(jv[0] == (seq![34u8] + spec_escape_bytes(encode_utf8(c.value@)))[0]);
    assert(s[ib + 8] == 34);
    assert(spec_skip_ws(s, ib + 8) == ib + 8);
    assert(ib + 8 == i + 17 + ln);
    assert forall|k: int| 0 <= k < lv implies s.subrange(ib + 8, ib + 8 + lv)[k] == jv[k] by {
        assert(s.subrange(ib + 8, ib + 8 + lv)[k] == s[ib + 8 + k]);
        assert(s[ib + 8 + k] == cj[17 + ln + k]);
    }
    assert(s.subrange(ib + 8, ib + 8 + lv) =~= jv);
    lemma_parse_string_of_json(s, ib + 8, c.value@);
    let acc2 = CookieModel { value: c.value@, ..acc1 };
    assert(kv != kn);
    assert(spec_cookie_member_value(s, ib + 8, kv, acc1) == Some((acc2, ib + 8 + lv)));
    assert(h3[0] == l3[0] as u8);
    assert(s[ib + 8 + lv] == 44);
    assert(spec_skip_ws(s, ib + 8 + lv) == ib + 8 + lv);
    assert(spec_cookie_members(s, ib, acc1) == spec_cookie_members(s, ib + 9 + lv, acc2));
    lemma_parse_cookie_tail(s, i, c, ib + 9 + lv);
    assert(spec_parse_cookie(s, i) == spec_cookie_members(s, i + 1, acc0));
}

/// The back half of a written cookie object: the domain and expiry
/// members and the closing brace.
#[verifier::rlimit(100)]
#[verifier::spinoff_prover]
proof fn lemma_parse_cookie_tail(s: Seq<u8>, i: int, c: Cookie, ic: int)
    requires
        0 <= i,
        i + spec_cookie_json(c).len() <= s.len(),
        s.subrange(i, i + spec_cookie_json(c).len() as int) == spec_cookie_json(c),
        ic == i + 18 + spec_json_string(c.name@).len() + spec_json_string(c.value@).len(),
    ensures
        spec_cookie_members(
            s,
            ic,
            CookieModel {
                name: c.name@,
                value: c.value@,
                domain: Seq::<char>::empty(),
                expires: 0,
            },
        ) == Some((spec_cookie_model_of(c), i + spec_cookie_json(c).len())),
{
    reveal_strlit("{\"name\":");
    reveal_strlit(",\"value\":");
    reveal_strlit(",\"domain\":");
    reveal_strlit(",\"expires\":");
    reveal_strlit("}");
    reveal_strlit("name");
    reveal_strlit("value");
    reveal_strlit("domain");
    reveal_strlit("expires");
    let l1 = "{\"name\":"@;
    let l2 = ",\"value\":"@;
    let l3 = ",\"domain\":"@;
    let l4 = ",\"expires\":"@;
    let l5 = "}"@;
    assert(vstd::utf8::is_ascii_chars(l3));
    assert(vstd::utf8::is_ascii_chars(l4));
    assert(vstd::utf8::is_ascii_chars(l5));
    vstd::utf8::is_ascii_chars_encode_utf8(l1);
    vstd::utf8::is_ascii_chars_encode_utf8(l2);
    vstd::utf8::is_ascii_chars_encode_utf8(l3);
    vstd::utf8::is_ascii_chars_encode_utf8(l4);
    vstd::utf8::is_ascii_chars_encode_utf8(l5);
    let h1 = encode_utf8(l1);
    let jn = spec_json_string(c.name@);
    let h2 = encode_utf8(l2);
    let jv = spec_json_string(c.value@);
    let h3 = encode_utf8(l3);
    let jd = spec_json_string(c.domain@);
    let h4 = encode_utf8(l4);
    let dd = spec_dec_int(c.expires as int);
    let h5 = encode_utf8(l5);
    let cj = spec_cookie_json(c);
    let p1 = h1 + jn;
    let p2 = p1 + h2;
    let p3 = p2 + jv;
    let p4 = p3 + h3;
    let p5 = p4 + jd;
    let p6 = p5 + h4;
    let p7 = p6 + dd;
    assert(cj == p7 + h5);
    assert(h1.len() == 8 && h2.len() == 9 && h3.len() == 10 && h4.len() == 11 && h5.len() == 1);
    let ln = jn.len() as int;
    let lv = jv.len() as int;
    let ldm = jd.len() as int;
    let le = dd.len() as int;
    assert(cj.len() == 39 + ln + lv + ldm + le);
    assert forall|k: int| 0 <= k < cj.len() implies s[i + k] == #[trigger] cj[k] by {
        assert(s.subrange(i, i + cj.len() as int)[k] == s[i + k]);
    }
    assert forall|k: int| 0 <= k < 10 implies cj[17 + ln + lv + k] == #[trigger] h3[k] by {
        assert(cj[17 + ln + lv + k] == p7[17 + ln + lv + k] && p7[17 + ln + lv + k] == p6[17 + ln
            + lv + k] && p6[17 + ln + lv + k] == p5[17 + ln + lv + k] && p5[17 + ln + lv + k]
            == p4[17 + ln + lv + k] && p4[17 + ln + lv + k] == h3[k]);
    }
    assert forall|k: int| 0 <= k < ldm implies cj[27 + ln + lv + k] == #[trigger] jd[k] by {
        assert(cj[27 + ln + lv + k] == p7[27 + ln + lv + k] && p7[27 + ln + lv + k] == p6[27 + ln
            + lv + k] && p6[27 + ln + lv + k] == p5[27 + ln + lv + k] && p5[27 + ln + lv + k]
            == jd[k]);
    }
    assert forall|k: int| 0 <= k < 11 implies cj[27 + ln + lv + ldm + k] == #[trigger] h4[k] by {
        assert(cj[27 + ln + lv + ldm + k] == p7[27 + ln + lv + ldm + k] && p7[27 + ln + lv + ldm
            + k] == p6[27 + ln + lv + ldm + k] && p6[27 + ln + lv + ldm + k] == h4[k]);
    }
    assert forall|k: int| 0 <= k < le implies cj[38 + ln + lv + ldm + k] == #[trigger] dd[k] by {
        assert(cj[38 + ln + lv + ldm + k] == p7[38 + ln + lv + ldm + k] && p7[38 + ln + lv + ldm
            + k] == dd[k]);
    }
    assert(cj[38 + ln + lv + ldm + le] == h5[0]);
    let kn = "name"@;
    let kv = "value"@;
    assert(kn.len() == 4 && kv.len() == 5 && "domain"@.len() == 6 && "expires"@.len() == 7);
    let acc2 = CookieModel {
        name: c.name@,
        value: c.value@,
        domain: Seq::<char>::empty(),
        expires: 0,
    };
    // member: domain
    let kd = "domain"@;
    assert(ic == i + 18 + ln + lv);
    assert(cj[17 + ln + lv + 1] == h3[1] && h3[1] == l3[1] as u8);
    assert(s[ic] == 34);
    assert(spec_skip_ws(s, ic) == ic);
    assert(cj[17 + ln + lv + 8] == h3[8] && h3[8] == l3[8] as u8);
    assert(s[ic + 7] == 34);
    assert forall|k: int| 0 <= k < 6 implies s[ic + 1 + k] == (#[trigger] kd[k]) as u8 by {
        assert(s[ic + 1 + k] == cj[17 + ln + lv + 2 + k]);
        assert(cj[17 + ln + lv + 2 + k] == h3[2 + k]);
        assert(h3[2 + k] == l3[2 + k] as u8);
    }
    lemma_key_string_at(s, ic, kd);
    assert(cj[17 + ln + lv + 9] == h3[9] && h3[9] == l3[9] as u8);
    assert(s[ic + 8] == 58);
    assert(spec_skip_ws(s, ic + 8) == ic + 8);
    assert(jd[0] == (seq![34u8] + spec_escape_bytes(encode_utf8(c.domain@)))[0]);
    assert(s[ic + 9] == 34);
    assert(spec_skip_ws(s, ic + 9) == ic + 9);
    assert(ic + 9 == i + 27 + ln + lv);
    assert forall|k: int| 0 <= k < ldm implies s.subrange(ic + 9, ic + 9 + ldm)[k] == jd[k] by {
        assert(s.subrange(ic + 9, ic + 9 + ldm)[k] == s[ic + 9 + k]);
        assert(s[ic + 9 + k] == cj[27 + ln + lv + k]);
    }
    assert(s.subrange(ic + 9, ic + 9 + ldm) =~= jd);
    lemma_parse_string_of_json(s, ic + 9, c.domain@);
    let acc3 = CookieModel { domain: c.domain@, ..acc2 };
    assert(kd != kn && kd != kv);
    assert(spec_cookie_member_value(s, ic + 9, kd, acc2) == Some((acc3, ic + 9 + ldm)));
    assert(h4[0] == l4[0] as u8);
    assert(s[ic + 9 + ldm] == 44);
    assert(spec_skip_ws(s, ic + 9 + ldm) == ic + 9 + ldm);
    assert(spec_cookie_members(s, ic, acc2) == spec_cookie_members(s, ic + 10 + ldm, acc3));
    // member: expires
    let ke = "expires"@;
    let id = ic + 10 + ldm;
    assert(id == i + 28 + ln + lv + ldm);
    assert(cj[27 + ln + lv + ldm + 1] == h4[1] && h4[1] == l4[1] as u8);
    assert(s[id] == 34);
    assert(spec_skip_ws(s, id) == id);
    assert(cj[27 + ln + lv + ldm + 9] == h4[9] && h4[9] == l4[9] as u8);
    assert(s[id + 8] == 34);
    assert forall|k: int| 0 <= k < 7 implies s[id + 1 + k] == (#[trigger] ke[k]) as u8 by {
        assert(s[id + 1 + k] == cj[27 + ln + lv + ldm + 2 + k]);
        assert(cj[27 + ln + lv + ldm + 2 + k] == h4[2 + k]);
        assert(h4[2 + k] == l4[2 + k] as u8);
    }
    lemma_key_string_at(s, id, ke);
    assert(cj[27 + ln + lv + ldm + 10] == h4[10] && h4[10] == l4[10] as u8);
    assert(s[id + 9] == 58);
    assert(spec_skip_ws(s, id + 9) == id + 9);
    crate::text::lemma_dec_nat_digits(
        if c.expires >= 0 {
            c.expires as nat
        } else {
            (-(c.expires as int)) as nat
        },
    );
    assert(spec_is_digit(dd[0]) || dd[0] == 45);
    assert(cj[38 + ln + lv + ldm + 0] == dd[0]);
    assert(s[id + 10] == dd[0]);
    assert(!spec_is_ws(s[id + 10]));
    assert(spec_skip_ws(s, id + 10) == id + 10);
    assert(id + 10 == i + 38 + ln + lv + ldm);
    assert forall|k: int| 0 <= k < le implies s.subrange(id + 10, id + 10 + le)[k] == dd[k] by {
        assert(s.subrange(id + 10, id + 10 + le)[k] == s[id + 10 + k]);
        assert(s[id + 10 + k] == cj[38 + ln + lv + ldm + k]);
    }
    assert(s.subrange(id + 10, id + 10 + le) =~= dd);
    assert(h5[0] == l5[0] as u8);
    assert(s[id + 10 + le] == 125);
    assert(!spec_is_digit(s[id + 10 + le]));
    lemma_parse_int_at(s, id + 10, c.expires);
    let acc4 = CookieModel { expires: c.expires, ..acc3 };
    assert(ke != kn && ke != kv && ke != kd);
    assert(spec_cookie_member_value(s, id + 10, ke, acc3) == Some((acc4, id + 10 + le)));
    assert(spec_skip_ws(s, id + 10 + le) == id + 10 + le);
    assert(spec_cookie_members(s, id, acc3) == Some((acc4, id + 11 + le)));
    assert(id + 11 + le == i + cj.len());
    assert(acc4 == spec_cookie_model_of(c));
}

/// The comma join of opaque byte strings, grouped as the writer groups
/// it.
spec fn spec_byte_join(xs: Seq<Seq<u8>>) -> Seq<u8>
    decreases xs.len(),
{
    if xs.len() == 0 {
        Seq::<u8>::empty()
    } else if xs.len() == 1 {
        xs[0]
    } else {
        spec_byte_join(xs.drop_last()) + seq![44u8] + xs.last()
    }
}

/// The comma-prefixed rest of a joined list.
spec fn spec_byte_rest(xs: Seq<Seq<u8>>) -> Seq<u8>
    decreases xs.len(),
{
    if xs.len() == 0 {
        Seq::<u8>::empty()
    } else {
        seq![44u8] + xs[0] + spec_byte_rest(xs.drop_first())
    }
}

proof fn lemma_byte_rest_snoc(xs: Seq<Seq<u8>>, x: Seq<u8>)
    ensures
        spec_byte_rest(xs.push(x)) == spec_byte_rest(xs) + seq![44u8] + x,
    decreases xs.len(),
{
    if xs.len() == 0 {
        assert(xs.push(x)[0] == x);
        assert(xs.push(x).drop_first() =~= Seq::<Seq<u8>>::empty());
        assert(spec_byte_rest(Seq::<Seq<u8>>::empty()) == Seq::<u8>::empty());
        assert(spec_byte_rest(xs.push(x)) == seq![44u8] + x + Seq::<u8>::empty());
        assert(spec_byte_rest(xs.push(x)) =~= spec_byte_rest(xs) + seq![44u8] + x);
    } else {
        assert(xs.push(x)[0] == xs[0]);
        assert(xs.push(x).drop_first() =~= xs.drop_first().push(x));
        lemma_byte_rest_snoc(xs.drop_first(), x);
        let r1 = spec_byte_rest(xs.drop_first());
        assert(spec_byte_rest(xs.push(x)) == seq![44u8] + xs[0] + (r1 + seq![44u8] + x));
        assert(spec_byte_rest(xs) == seq![44u8] + xs[0] + r1);
        assert(seq![44u8] + xs[0] + (r1 + seq![44u8] + x) =~= (seq![44u8] + xs[0] + r1)
            + seq![44u8] + x);
    }
}

/// A joined list peels its first entry.
proof fn lemma_byte_join_first(xs: Seq<Seq<u8>>)
    requires
        xs.len() >= 1,
    ensures
        spec_byte_join(xs) == xs[0] + spec_byte_rest(xs.drop_first()),
    decreases xs.len(),
{
    if xs.len() == 1 {
        assert(xs.drop_first() =~= Seq::<Seq<u8>>::empty());
        assert(spec_byte_join(xs) =~= xs[0] + spec_byte_rest(xs.drop_first()));
    } else {
        let dl = xs.drop_last();
        lemma_byte_join_first(dl);
        lemma_byte_rest_snoc(dl.drop_first(), xs.last());
        assert(xs.drop_first() =~= dl.drop_first().push(xs.last()));
        assert(dl[0] == xs[0]);
        assert(spec_byte_join(xs) =~= xs[0] + spec_byte_rest(xs.drop_first()));
    }
}

/// The rest of a nonempty list is a comma and the joined list.
proof fn lemma_byte_rest_as_join(ys: Seq<Seq<u8>>)
    requires
        ys.len() >= 1,
    ensures
        spec_byte_rest(ys) == seq![44u8] + spec_byte_join(ys),
{
    lemma_byte_join_first(ys);
    assert(spec_byte_rest(ys) =~= seq![44u8] + spec_byte_join(ys));
}

/// The renderings of the cookies, one opaque byte string each.
spec fn spec_cookie_jsons(cs: Seq<Cookie>) -> Seq<Seq<u8>> {
    cs.map_values(|c: Cookie| spec_cookie_json(c))
}

/// The written cookie list is the comma join of the written cookies.
proof fn lemma_cookies_json_is_join(cs: Seq<Cookie>)
    ensures
        spec_cookies_json(cs) == spec_byte_join(spec_cookie_jsons(cs)),
    decreases cs.len(),
{
    let ms = spec_cookie_jsons(cs);
    assert(ms.len() == cs.len());
    if cs.len() == 0 {
    } else if cs.len() == 1 {
        assert(ms[0] == spec_cookie_json(cs[0]));
    } else {
        let dl = cs.drop_last();
        lemma_cookies_json_is_join(dl);
        assert(ms.drop_last() =~= spec_cookie_jsons(dl));
        assert(ms.last() == spec_cookie_json(cs.last()));
        assert(spec_byte_join(ms) == spec_byte_join(ms.drop_last()) + seq![44u8] + ms.last());
    }
}

/// Reading a written cookie list, element by element, yields the models
/// of the cookies it came from.
#[verifier::rlimit(100)]
#[verifier::spinoff_prover]
proof fn lemma_cookie_elements_at(s: Seq<u8>, i: int, cs: Seq<Cookie>, acc: Seq<CookieModel>)
    requires
        0 <= i,
        i + spec_cookies_json(cs).len() + 1 <= s.len(),
        s.subrange(i, i + spec_cookies_json(cs).len() as int) == spec_cookies_json(cs),
        s[i + spec_cookies_json(cs).len() as int] == 93,
    ensures
        spec_cookie_elements(s, i, acc) == Some(
            (acc + spec_cookie_models(cs), i + spec_cookies_json(cs).len() + 1),
        ),
    decreases cs.len(),
{
    let ck = spec_cookies_json(cs);
    assert forall|k: int| 0 <= k < ck.len() implies s[i + k] == #[trigger] ck[k] by {
        assert(s.subrange(i, i + ck.len() as int)[k] == s[i + k]);
    }
    if cs.len() == 0 {
        assert(ck.len() == 0);
        assert(s[i] == 93);
        assert(spec_skip_ws(s, i) == i);
        assert(spec_cookie_models(cs) =~= Seq::<CookieModel>::empty());
        assert(acc + spec_cookie_models(cs) =~= acc);
    } else {
        let ms = spec_cookie_jsons(cs);
        lemma_cookies_json_is_join(cs);
        lemma_byte_join_first(ms);
        let cj0 = spec_cookie_json(cs[0]);
        assert(ms[0] == cj0);
        let df = cs.drop_first();
        assert(ms.drop_first() =~= spec_cookie_jsons(df));
        let rest = spec_byte_rest(spec_cookie_jsons(df));
        assert(ck == cj0 + rest);
        assert forall|k: int| 0 <= k < cj0.len() implies s.subrange(i, i + cj0.len() as int)[k]
            == cj0[k] by {
            assert(s.subrange(i, i + cj0.len() as int)[k] == s[i + k]);
            assert(ck[k] == (cj0 + rest)[k]);
        }
        assert(s.subrange(i, i + cj0.len() as int) =~= cj0);
        lemma_parse_cookie_at(s, i, cs[0]);
        // the parse succeeded, so the object opens with a brace
        assert(s[i] == 123);
        assert(spec_skip_ws(s, i) == i);
        let m0 = spec_cookie_model_of(cs[0]);
        let j2 = i + cj0.len();
        // the models of the whole list, peeled the same way
        assert forall|k: int| 0 <= k < cs.len() implies spec_cookie_models(cs)[k] == (seq![m0]
            + spec_cookie_models(df))[k] by {
            if k > 0 {
                assert(spec_cookie_models(df)[k - 1] == spec_cookie_model_of(df[k - 1]));
                assert(df[k - 1] == cs[k]);
            }
        }
        assert(spec_cookie_models(cs) =~= seq![m0] + spec_cookie_models(df));
        if df.len() == 0 {
            assert(rest.len() == 0);
            assert(ck.len() == cj0.len());
            assert(s[j2] == 93);
            assert(spec_skip_ws(s, j2) == j2);
            assert(acc.push(m0) =~= acc + spec_cookie_models(cs));
        } else {
            lemma_byte_rest_as_join(spec_cookie_jsons(df));
            lemma_cookies_json_is_join(df);
            let ckd = spec_cookies_json(df);
            assert(rest == seq![44u8] + ckd);
            assert(ck[cj0.len() as int] == (cj0 + rest)[cj0.len() as int]);
            assert((cj0 + rest)[cj0.len() as int] == rest[0]);
            assert(rest[0] == (seq![44u8] + ckd)[0]);
            assert(s[j2] == 44);
            assert(spec_skip_ws(s, j2) == j2);
            assert(ck.len() == cj0.len() + 1 + ckd.len());
            assert forall|k: int| 0 <= k < ckd.len() implies s.subrange(
                j2 + 1,
                j2 + 1 + ckd.len() as int,
            )[k] == ckd[k] by {
                assert(s.subrange(j2 + 1, j2 + 1 + ckd.len() as int)[k] == s[j2 + 1 + k]);
                assert(ck[cj0.len() + 1 + k] == (cj0 + rest)[cj0.len() + 1 + k]);
                assert(rest[1 + k] == (seq![44u8] + ckd)[1 + k]);
            }
            assert(s.subrange(j2 + 1, j2 + 1 + ckd.len() as int) =~= ckd);
            assert(s[j2 + 1 + ckd.len() as int] == 93);
            lemma_cookie_elements_at(s, j2 + 1, df, acc.push(m0));
            assert(acc.push(m0) + spec_cookie_models(df) =~= acc + spec_cookie_models(cs));
        }
    }
}

/// Writing credentials and reading them back yields the very same
/// credentials: the lenient reader inverts the deterministic writer on
/// every well-formed value, not only on tested ones.
#[verifier::rlimit(100)]
#[verifier::spinoff_prover]
pub proof fn lemma_auth_round_trip(a: AuthData)
    ensures
        spec_parse_auth(spec_auth_json(a)) == Some(spec_model_of(a)),
{
    reveal_strlit("{\"token\":");
    reveal_strlit(",\"cookies\":[");
    reveal_strlit("]}");
    reveal_strlit("token");
    reveal_strlit("cookies");
    reveal_strlit("access_token");
    reveal_strlit("refresh_token");
    reveal_strlit("expires_in");
    let l1 = "{\"token\":"@;
    let l2 = ",\"cookies\":["@;
    let l3 = "]}"@;
    assert(vstd::utf8::is_ascii_chars(l1));
    assert(vstd::utf8::is_ascii_chars(l2));
    assert(vstd::utf8::is_ascii_chars(l3));
    vstd::utf8::is_ascii_chars_encode_utf8(l1);
    vstd::utf8::is_ascii_chars_encode_utf8(l2);
    vstd::utf8::is_ascii_chars_encode_utf8(l3);
    let g1 = encode_utf8(l1);
    let tj = spec_token_json(a.token);
    let g2 = encode_utf8(l2);
    let ck = spec_cookies_json(a.cookies@);
    let g3 = encode_utf8(l3);
    let s = spec_auth_json(a);
    let p1 = g1 + tj;
    let p2 = p1 + g2;
    let p3 = p2 + ck;
    assert(s == p3 + g3);
    assert(g1.len() == 9 && g2.len() == 12 && g3.len() == 2);
    let lt = tj.len() as int;
    let lc = ck.len() as int;
    assert(s.len() == 23 + lt + lc);
    assert forall|k: int| 0 <= k < 9 implies s[k] == #[trigger] g1[k] by {
        assert(s[k] == p3[k] && p3[k] == p2[k] && p2[k] == p1[k] && p1[k] == g1[k]);
    }
    assert forall|k: int| 0 <= k < lt implies s[9 + k] == #[trigger] tj[k] by {
        assert(s[9 + k] == p3[9 + k] && p3[9 + k] == p2[9 + k] && p2[9 + k] == p1[9 + k] && p1[9
            + k] == tj[k]);
    }
    assert forall|k: int| 0 <= k < 12 implies s[9 + lt + k] == #[trigger] g2[k] by {
        assert(s[9 + lt + k] == p3[9 + lt + k] && p3[9 + lt + k] == p2[9 + lt + k] && p2[9 + lt
            + k] == g2[k]);
    }
    assert forall|k: int| 0 <= k < lc implies s[21 + lt + k] == #[trigger] ck[k] by {
        assert(s[21 + lt + k] == p3[21 + lt + k] && p3[21 + lt + k] == ck[k]);
    }
    assert(s[21 + lt + lc] == g3[0]);
    assert(s[22 + lt + lc] == g3[1]);
    assert(g1[0] == l1[0] as u8);
    assert(s[0] == 123);
    assert(spec_skip_ws(s, 0) == 0);
    // member: token
    let kt = "token"@;
    assert(g1[1] == l1[1] as u8);
    assert(s[1] == 34);
    assert(spec_skip_ws(s, 1) == 1);
    assert(g1[7] == l1[7] as u8);
    assert(s[7] == 34);
    assert forall|k: int| 0 <= k < 5 implies s[2 + k] == (#[trigger] kt[k]) as u8 by {
        assert(s[2 + k] == g1[2 + k]);
        assert(g1[2 + k] == l1[2 + k] as u8);
    }
    lemma_key_string_at(s, 1, kt);
    assert(g1[8] == l1[8] as u8);
    assert(s[8] == 58);
    assert(spec_skip_ws(s, 8) == 8);
    assert forall|k: int| 0 <= k < lt implies s.subrange(9, 9 + lt)[k] == tj[k] by {
        assert(s.subrange(9, 9 + lt)[k] == s[9 + k]);
    }
    assert(s.subrange(9, 9 + lt) =~= tj);
    lemma_parse_token_at(s, 9, a.token);
    // the token parse succeeded, so its object opens with a brace
    assert(s[9] == 123);
    assert(spec_skip_ws(s, 9) == 9);
    assert(kt.len() == 5 && "cookies"@.len() == 7);
    let acc0 = spec_empty_auth_model();
    let acc1 = AuthModel {
        access_token: a.token.access_token@,
        refresh_token: a.token.refresh_token@,
        expires_in: a.token.expires_in,
        cookies: Seq::<CookieModel>::empty(),
    };
    assert(spec_auth_member_value(s, 9, kt, acc0) == Some((acc1, 9 + lt)));
    assert(g2[0] == l2[0] as u8);
    assert(s[9 + lt] == 44);
    assert(spec_skip_ws(s, 9 + lt) == 9 + lt);
    assert(spec_auth_members(s, 1, acc0) == spec_auth_members(s, 10 + lt, acc1));
    lemma_auth_round_trip_tail(a);
}

/// The back half of a written credential file: the cookies member and
/// the closing bytes.
#[verifier::rlimit(100)]
#[verifier::spinoff_prover]
proof fn lemma_auth_round_trip_tail(a: AuthData)
    ensures
        spec_auth_members(
            spec_auth_json(a),
            10 + spec_token_json(a.token).len() as int,
            AuthModel {
                access_token: a.token.access_token@,
                refresh_token: a.token.refresh_token@,
                expires_in: a.token.expires_in,
                cookies: Seq::<CookieModel>::empty(),
            },
        ) == Some((spec_model_of(a), spec_auth_json(a).len() as int)),
{
    reveal_strlit("{\"token\":");
    reveal_strlit(",\"cookies\":[");
    reveal_strlit("]}");
    reveal_strlit("token");
    reveal_strlit("cookies");
    let l1 = "{\"token\":"@;
    let l2 = ",\"cookies\":["@;
    let l3 = "]}"@;
    assert(vstd::utf8::is_ascii_chars(l2));
    assert(vstd::utf8::is_ascii_chars(l3));
    vstd::utf8::is_ascii_chars_encode_utf8(l1);
    vstd::utf8::is_ascii_chars_encode_utf8(l2);
    vstd::utf8::is_ascii_chars_encode_utf8(l3);
    let g1 = encode_utf8(l1);
    let tj = spec_token_json(a.token);
    let g2 = encode_utf8(l2);
    let ck = spec_cookies_json(a.cookies@);
    let g3 = encode_utf8(l3);
    let s = spec_auth_json(a);
    let p1 = g1 + tj;
    let p2 = p1 + g2;
    let p3 = p2 + ck;
    assert(s == p3 + g3);
    assert(g1.len() == 9 && g2.len() == 12 && g3.len() == 2);
    let lt = tj.len() as int;
    let lc = ck.len() as int;
    assert(s.len() == 23 + lt + lc);
    assert forall|k: int| 0 <= k < 12 implies s[9 + lt + k] == #[trigger] g2[k] by {
        assert(s[9 + lt + k] == p3[9 + lt + k] && p3[9 + lt + k] == p2[9 + lt + k] && p2[9 + lt
            + k] == g2[k]);
    }
    assert forall|k: int| 0 <= k < lc implies s[21 + lt + k] == #[trigger] ck[k] by {
        assert(s[21 + lt + k] == p3[21 + lt + k] && p3[21 + lt + k] == ck[k]);
    }
    let acc1 = AuthModel {
        access_token: a.token.access_token@,
        refresh_token: a.token.refresh_token@,
        expires_in: a.token.expires_in,
        cookies: Seq::<CookieModel>::empty(),
    };
    let kt = "token"@;
    assert(kt.len() == 5 && "cookies"@.len() == 7);
    // member: cookies
    let kc = "cookies"@;
    let ib = 10 + lt;
    assert(g2[1] == l2[1] as u8);
    assert(s[ib] == 34);
    assert(spec_skip_ws(s, ib) == ib);
    assert(g2[9] == l2[9] as u8);
    assert(s[ib + 8] == 34);
    assert forall|k: int| 0 <= k < 7 implies s[ib + 1 + k] == (#[trigger] kc[k]) as u8 by {
        assert(s[ib + 1 + k] == g2[2 + k]);
        assert(g2[2 + k] == l2[2 + k] as u8);
    }
    lemma_key_string_at(s, ib, kc);
    assert(g2[10] == l2[10] as u8);
    assert(s[ib + 9] == 58);
    assert(spec_skip_ws(s, ib + 9) == ib + 9);
    assert(g2[11] == l2[11] as u8);
    assert(s[ib + 10] == 91);
    assert(spec_skip_ws(s, ib + 10) == ib + 10);
    assert(ib + 10 == 20 + lt);
    assert(kt.len() == 5);
    assert(kc != kt);
    lemma_auth_cookies_region(a);
    assert(Seq::<CookieModel>::empty() + spec_cookie_models(a.cookies@) =~= spec_cookie_models(
        a.cookies@,
    ));
    let acc2 = AuthModel { cookies: spec_cookie_models(a.cookies@), ..acc1 };
    assert(spec_auth_member_value(s, ib + 10, kc, acc1) == Some((acc2, 22 + lt + lc)));
    assert(s[22 + lt + lc] == g3[1]);
    assert(g3[1] == l3[1] as u8);
    assert(s[22 + lt + lc] == 125);
    assert(spec_skip_ws(s, 22 + lt + lc) == 22 + lt + lc);
    assert(spec_auth_members(s, ib, acc1) == Some((acc2, s.len() as int)));
    assert(acc2 == spec_model_of(a));
}

/// The written cookie list inside the credential file reads back as the
/// cookie models, stopping at the closing bracket.
#[verifier::rlimit(100)]
#[verifier::spinoff_prover]
proof fn lemma_auth_cookies_region(a: AuthData)
    ensures
        spec_cookie_elements(
            spec_auth_json(a),
            21 + spec_token_json(a.token).len() as int,
            Seq::<CookieModel>::empty(),
        ) == Some(
            (
                Seq::<CookieModel>::empty() + spec_cookie_models(a.cookies@),
                22 + spec_token_json(a.token).len() as int + spec_cookies_json(
                    a.cookies@,
                ).len() as int,
            ),
        ),
{
    reveal_strlit("{\"token\":");
    reveal_strlit(",\"cookies\":[");
    reveal_strlit("]}");
    let l1 = "{\"token\":"@;
    let l2 = ",\"cookies\":["@;
    let l3 = "]}"@;
    assert(vstd::utf8::is_ascii_chars(l3));
    vstd::utf8::is_ascii_chars_encode_utf8(l1);
    vstd::utf8::is_ascii_chars_encode_utf8(l2);
    vstd::utf8::is_ascii_chars_encode_utf8(l3);
    let g1 = encode_utf8(l1);
    let tj = spec_token_json(a.token);
    let g2 = encode_utf8(l2);
    let ck = spec_cookies_json(a.cookies@);
    let g3 = encode_utf8(l3);
    let s = spec_auth_json(a);
    let p1 = g1 + tj;
    let p2 = p1 + g2;
    let p3 = p2 + ck;
    assert(s == p3 + g3);
    assert(g1.len() == 9 && g2.len() == 12 && g3.len() == 2);
    let lt = tj.len() as int;
    let lc = ck.len() as int;
    assert(s.len() == 23 + lt + lc);
    assert forall|k: int| 0 <= k < lc implies s.subrange(21 + lt, 21 + lt + lc)[k] == ck[k] by {
        assert(s.subrange(21 + lt, 21 + lt + lc)[k] == s[21 + lt + k]);
        assert(s[21 + lt + k] == p3[21 + lt + k] && p3[21 + lt + k] == ck[k]);
    }
    assert(s.subrange(21 + lt, 21 + lt + lc) =~= ck);
    assert(s[21 + lt + lc] == g3[0]);
    assert(g3[0] == l3[0] as u8);
    assert(s[21 + lt + lc] == 93);
    lemma_cookie_elements_at(s, 21 + lt, a.cookies@, Seq::<CookieModel>::empty());
}

/// The digit scan stops exactly at the first non-digit.
proof fn lemma_scan_digits_char(s: Seq<u8>, i: int, j: int)
    requires
        0 <= i <= j <= s.len(),
        forall|k: int| i <= k < j ==> spec_is_digit(#[trigger] s[k]),
        j < s.len() ==> !spec_is_digit(s[j]),
    ensures
        spec_scan_digits(s, i) == j,
    decreases j - i,
{
    if i < j {
        lemma_scan_digits_char(s, i + 1, j);
    }
}

/// Reading a written integer yields the number it came from, when the
/// byte that follows is not a digit.
proof fn lemma_parse_int_at(s: Seq<u8>, i: int, n: i64)
    requires
        0 <= i,
        i + spec_dec_int(n as int).len() <= s.len(),
        s.subrange(i, i + spec_dec_int(n as int).len() as int) == spec_dec_int(n as int),
        i + spec_dec_int(n as int).len() == s.len() || !spec_is_digit(
            s[i + spec_dec_int(n as int).len() as int],
        ),
    ensures
        spec_parse_int(s, i) == Some((n, i + spec_dec_int(n as int).len())),
{
    let d = spec_dec_int(n as int);
    let end = i + d.len();
    assert forall|k: int| 0 <= k < d.len() implies s[i + k] == #[trigger] d[k] by {
        assert(s.subrange(i, i + d.len() as int)[k] == s[i + k]);
    }
    crate::text::lemma_parse_dec_int_round(n);
    if n >= 0 {
        let body = crate::text::spec_dec_nat(n as nat);
        crate::text::lemma_dec_nat_digits(n as nat);
        assert(d == body);
        assert(spec_is_digit(s[i]));
        assert(s[i] != 45);
        assert forall|k: int| i <= k < end implies spec_is_digit(#[trigger] s[k]) by {
            assert(s[k] == d[k - i]);
        }
        lemma_scan_digits_char(s, i, end);
        assert(s.subrange(i, end) =~= d);
    } else {
        let m = (-(n as int)) as nat;
        let body = crate::text::spec_dec_nat(m);
        crate::text::lemma_dec_nat_digits(m);
        assert(d == seq![45u8] + body);
        assert(d[0] == 45);
        assert(s[i] == 45);
        assert forall|k: int| i + 1 <= k < end implies spec_is_digit(#[trigger] s[k]) by {
            assert(s[k] == d[k - i]);
            assert(d[k - i] == body[k - i - 1]);
        }
        lemma_scan_digits_char(s, i + 1, end);
        assert(end != i + 1);
        assert(s.subrange(i, end) =~= d);
    }
}

} // verus!

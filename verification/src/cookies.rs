//! Reading a `name=value; name2=value2` cookie header: looking one
//! cookie up by name, and snapshotting the whole header into the
//! persisted cookie list. Items are split on `;`, trimmed, and split on
//! their first `=`; an item without `=` is skipped.

use vstd::prelude::*;
use vstd::string::{StrSliceExecFns, StringExecFns};
use crate::domain::Cookie;
use crate::text::str_eq;

verus! {

/// The first index at which `c` occurs in `s`, or `s.len()`.
pub open spec fn spec_find(s: Seq<char>, c: char) -> int
    decreases s.len(),
{
    if s.len() == 0 {
        0
    } else if s[0] == c {
        0
    } else {
        1 + spec_find(s.drop_first(), c)
    }
}

/// `spec_find` is characterised by "no earlier occurrence, and an
/// occurrence there unless the string is exhausted".
pub proof fn lemma_find_char(s: Seq<char>, c: char, j: int)
    requires
        0 <= j <= s.len(),
        forall|k: int| 0 <= k < j ==> s[k] != c,
        j < s.len() ==> s[j] == c,
    ensures
        spec_find(s, c) == j,
    decreases s.len(),
{
    if s.len() == 0 {
    } else if s[0] == c {
        assert(j == 0);
    } else {
        assert(j >= 1);
        lemma_find_char(s.drop_first(), c, j - 1);
    }
}

/// The first occurrence index never leaves `[0, s.len()]`.
pub proof fn lemma_find_bounds(s: Seq<char>, c: char)
    ensures
        0 <= spec_find(s, c) <= s.len(),
    decreases s.len(),
{
    if s.len() != 0 && s[0] != c {
        lemma_find_bounds(s.drop_first(), c);
    }
}

/// A byte the trimming strips.
pub open spec fn spec_is_space(ch: char) -> bool {
    ch == ' ' || ch == '\t'
}

/// `s` without its leading spaces.
pub open spec fn spec_trim_front(s: Seq<char>) -> Seq<char>
    decreases s.len(),
{
    if s.len() > 0 && spec_is_space(s[0]) {
        spec_trim_front(s.drop_first())
    } else {
        s
    }
}

/// `s` without its trailing spaces.
pub open spec fn spec_trim_back(s: Seq<char>) -> Seq<char>
    decreases s.len(),
{
    if s.len() > 0 && spec_is_space(s.last()) {
        spec_trim_back(s.drop_last())
    } else {
        s
    }
}

/// `s` without leading and trailing spaces.
pub open spec fn spec_trim(s: Seq<char>) -> Seq<char> {
    spec_trim_back(spec_trim_front(s))
}

pub proof fn lemma_trim_front_char(s: Seq<char>, a: int)
    requires
        0 <= a <= s.len(),
        forall|k: int| 0 <= k < a ==> spec_is_space(#[trigger] s[k]),
        a < s.len() ==> !spec_is_space(s[a]),
    ensures
        spec_trim_front(s) == s.skip(a),
    decreases s.len(),
{
    if s.len() == 0 {
        assert(s.skip(0int) =~= s);
    } else if spec_is_space(s[0]) {
        assert(a >= 1);
        lemma_trim_front_char(s.drop_first(), a - 1);
        assert(s.drop_first().skip(a - 1) =~= s.skip(a));
    } else {
        assert(a == 0);
        assert(s.skip(0int) =~= s);
    }
}

pub proof fn lemma_trim_back_char(s: Seq<char>, b: int)
    requires
        0 <= b <= s.len(),
        forall|k: int| b <= k < s.len() ==> spec_is_space(#[trigger] s[k]),
        b > 0 ==> !spec_is_space(s[b - 1]),
    ensures
        spec_trim_back(s) == s.take(b),
    decreases s.len(),
{
    if s.len() == 0 {
        assert(s.take(0int) =~= s);
    } else if spec_is_space(s.last()) {
        assert(b < s.len());
        lemma_trim_back_char(s.drop_last(), b);
        assert(s.drop_last().take(b) =~= s.take(b));
    } else {
        assert(b == s.len());
        assert(s.take(b) =~= s);
    }
}

/// The `(name, value)` reading of one `;`-separated item, `None` when
/// the trimmed item has no `=`.
pub open spec fn spec_pair_of_item(item: Seq<char>) -> Option<(Seq<char>, Seq<char>)> {
    let t = spec_trim(item);
    let e = spec_find(t, '=');
    if e < t.len() {
        Some((t.take(e), t.skip(e + 1)))
    } else {
        None
    }
}

/// Looks a cookie up by name: the value of the first item whose name
/// matches, reading the header front to back.
pub open spec fn spec_cookie_lookup(s: Seq<char>, name: Seq<char>) -> Option<Seq<char>>
    decreases s.len(),
    via spec_cookie_lookup_decreases
{
    let item_end = spec_find(s, ';');
    let item = s.take(item_end);
    let head = match spec_pair_of_item(item) {
        Some(pr) => if pr.0 == name {
            Some(pr.1)
        } else {
            None
        },
        None => None,
    };
    if head is Some {
        head
    } else if item_end < s.len() {
        spec_cookie_lookup(s.skip(item_end + 1), name)
    } else {
        None
    }
}

#[via_fn]
proof fn spec_cookie_lookup_decreases(s: Seq<char>, name: Seq<char>) {
    lemma_find_bounds(s, ';');
}

/// Every `(name, value)` pair of the header, in order, items without
/// `=` skipped.
pub open spec fn spec_cookie_pairs(s: Seq<char>) -> Seq<(Seq<char>, Seq<char>)>
    decreases s.len(),
    via spec_cookie_pairs_decreases
{
    let item_end = spec_find(s, ';');
    let item = s.take(item_end);
    let head = match spec_pair_of_item(item) {
        Some(pr) => seq![pr],
        None => Seq::<(Seq<char>, Seq<char>)>::empty(),
    };
    head + (if item_end < s.len() {
        spec_cookie_pairs(s.skip(item_end + 1))
    } else {
        Seq::<(Seq<char>, Seq<char>)>::empty()
    })
}

#[via_fn]
proof fn spec_cookie_pairs_decreases(s: Seq<char>) {
    lemma_find_bounds(s, ';');
}

/// Whether the character at `i` is one the trimming strips.
fn is_space_at(s: &str, i: usize) -> (r: bool)
    requires
        i < s@.len(),
    ensures
        r == spec_is_space(s@[i as int]),
{
    let ch = s.get_char(i);
    ch == ' ' || ch == '\t'
}

/// Finds the first occurrence of `c` in `s` at or after `from`.
fn find_char_from(s: &str, c: char, from: usize) -> (r: usize)
    requires
        from <= s@.len(),
    ensures
        from <= r <= s@.len(),
        r - from == spec_find(s@.skip(from as int), c),
        r < s@.len() ==> s@[r as int] == c,
        forall|k: int| from <= k < r ==> s@[k] != c,
{
    let n = s.unicode_len();
    let mut j = from;
    while j < n
        invariant
            from <= j <= n,
            n == s@.len(),
            forall|k: int| from <= k < j ==> s@[k] != c,
        decreases n - j,
    {
        if s.get_char(j) == c {
            proof {
                let rest = s@.skip(from as int);
                assert forall|k: int| 0 <= k < j - from implies rest[k] != c by {
                    assert(rest[k] == s@[from + k]);
                }
                assert(rest[j - from] == s@[j as int]);
                lemma_find_char(rest, c, j - from);
            }
            return j;
        }
        j = j + 1;
    }
    proof {
        let rest = s@.skip(from as int);
        assert forall|k: int| 0 <= k < n - from implies rest[k] != c by {
            assert(rest[k] == s@[from + k]);
        }
        lemma_find_char(rest, c, n - from);
    }
    n
}

/// The bounds of the trimmed middle of `s`.
fn trim_bounds(s: &str) -> (r: (usize, usize))
    ensures
        r.0 <= r.1 <= s@.len(),
        spec_trim(s@) == s@.subrange(r.0 as int, r.1 as int),
{
    let n = s.unicode_len();
    let mut a: usize = 0;
    while a < n && is_space_at(s, a)
        invariant
            a <= n,
            n == s@.len(),
            forall|k: int| 0 <= k < a ==> spec_is_space(#[trigger] s@[k]),
        decreases n - a,
    {
        a = a + 1;
    }
    proof {
        lemma_trim_front_char(s@, a as int);
    }
    let mut b: usize = n;
    while b > a && is_space_at(s, b - 1)
        invariant
            a <= b <= n,
            n == s@.len(),
            forall|k: int| b <= k < n ==> spec_is_space(#[trigger] s@[k]),
        decreases b,
    {
        b = b - 1;
    }
    proof {
        let front = s@.skip(a as int);
        assert forall|k: int| b - a <= k < front.len() implies spec_is_space(#[trigger] front[k]) by {
            assert(front[k] == s@[a + k]);
        }
        if b > a {
            assert(front[b - a - 1] == s@[b - 1]);
        }
        lemma_trim_back_char(front, b as int - a as int);
        assert(front.take(b as int - a as int) =~= s@.subrange(a as int, b as int));
    }
    (a, b)
}

/// Looks up the value of the cookie named `name` in a cookie header.
pub fn get_cookie_value(header: &str, name: &str) -> (r: Option<String>)
    ensures
        match r {
            Some(v) => spec_cookie_lookup(header@, name@) == Some(v@),
            None => spec_cookie_lookup(header@, name@) is None,
        },
{
    let n = header.unicode_len();
    let mut p: usize = 0;
    proof {
        assert(header@.skip(0int) =~= header@);
    }
    loop
        invariant
            p <= n,
            n == header@.len(),
            spec_cookie_lookup(header@, name@) == spec_cookie_lookup(
                header@.skip(p as int),
                name@,
            ),
        decreases n - p,
    {
        let ghost rest = header@.skip(p as int);
        let end = find_char_from(header, ';', p);
        proof {
            assert(rest.take(end - p) =~= header@.subrange(p as int, end as int));
        }
        let item = header.substring_char(p, end);
        let (ta, tb) = trim_bounds(item);
        let t = item.substring_char(ta, tb);
        proof {
            assert(t@ == spec_trim(item@));
        }
        let tn = t.unicode_len();
        let e = find_char_from(t, '=', 0);
        proof {
            assert(t@.skip(0int) =~= t@);
        }
        if e < tn {
            let nm = t.substring_char(0, e);
            let vl = t.substring_char(e + 1, tn);
            proof {
                assert(nm@ =~= t@.take(e as int));
                assert(vl@ =~= t@.skip(e as int + 1));
            }
            if str_eq(nm, name) {
                let out = vl.to_owned();
                proof {
                    assert(spec_pair_of_item(item@) == Some((nm@, vl@)));
                    assert(spec_cookie_lookup(rest, name@) == Some(vl@));
                }
                return Some(out);
            }
        }
        proof {
            if e < tn {
                assert(spec_pair_of_item(item@) == Some((t@.take(e as int), t@.skip(e as int + 1))));
                assert(t@.take(e as int) != name@);
            } else {
                assert(spec_pair_of_item(item@) is None);
            }
        }
        if end < n {
            proof {
                assert(rest.skip((end - p) + 1) =~= header@.skip(end as int + 1));
                assert(spec_cookie_lookup(rest, name@) == spec_cookie_lookup(
                    header@.skip(end as int + 1),
                    name@,
                ));
            }
            p = end + 1;
        } else {
            proof {
                assert(spec_cookie_lookup(rest, name@) is None);
            }
            return None;
        }
    }
}

/// The fixed domain recorded for every snapshotted cookie.
pub open spec fn spec_cookie_domain() -> Seq<char> {
    ".bilibili.com"@
}

/// Snapshots a cookie header into the persisted cookie list: one entry
/// per `name=value` item, in header order, under the fixed domain and
/// with no expiry recorded.
pub fn parse_cookie_header(header: &str) -> (r: Vec<Cookie>)
    ensures
        r@.len() == spec_cookie_pairs(header@).len(),
        forall|i: int|
            0 <= i < r@.len() ==> {
                let pr = spec_cookie_pairs(header@)[i];
                (#[trigger] r@[i]).name@ == pr.0 && r@[i].value@ == pr.1 && r@[i].domain@
                    == spec_cookie_domain() && r@[i].expires == 0
            },
{
    let ghost goal = spec_cookie_pairs(header@);
    let n = header.unicode_len();
    let mut out: Vec<Cookie> = Vec::new();
    let mut p: usize = 0;
    proof {
        assert(header@.skip(0int) =~= header@);
    }
    loop
        invariant
            p <= n,
            n == header@.len(),
            goal == spec_cookie_pairs(header@),
            out@.len() <= goal.len(),
            goal =~= goal.take(out@.len() as int) + spec_cookie_pairs(header@.skip(p as int)),
            forall|i: int|
                0 <= i < out@.len() ==> {
                    let pr = goal[i];
                    (#[trigger] out@[i]).name@ == pr.0 && out@[i].value@ == pr.1 && out@[i].domain@
                        == spec_cookie_domain() && out@[i].expires == 0
                },
        decreases n - p,
    {
        let ghost rest = header@.skip(p as int);
        let end = find_char_from(header, ';', p);
        proof {
            assert(rest.take(end - p) =~= header@.subrange(p as int, end as int));
        }
        let item = header.substring_char(p, end);
        let (ta, tb) = trim_bounds(item);
        let t = item.substring_char(ta, tb);
        let tn = t.unicode_len();
        let e = find_char_from(t, '=', 0);
        proof {
            assert(t@.skip(0int) =~= t@);
        }
        let ghost head_len: int = if e < tn {
            1int
        } else {
            0int
        };
        if e < tn {
            let nm = t.substring_char(0, e);
            let vl = t.substring_char(e + 1, tn);
            proof {
                assert(nm@ =~= t@.take(e as int));
                assert(vl@ =~= t@.skip(e as int + 1));
                assert(spec_pair_of_item(item@) == Some((nm@, vl@)));
            }
            let domain = make_cookie_domain();
            let c = Cookie { name: nm.to_owned(), value: vl.to_owned(), domain, expires: 0 };
            out.push(c);
            proof {
                assert(spec_cookie_pairs(rest)[0] == (nm@, vl@));
                assert(goal[out@.len() - 1] == (nm@, vl@));
            }
        } else {
            proof {
                assert(spec_pair_of_item(item@) is None);
            }
        }
        if end < n {
            proof {
                assert(rest.skip((end - p) + 1) =~= header@.skip(end as int + 1));
                assert(spec_cookie_pairs(rest) == spec_cookie_pairs(rest).take(head_len)
                    + spec_cookie_pairs(header@.skip(end as int + 1)));
                assert(goal =~= goal.take(out@.len() as int) + spec_cookie_pairs(
                    header@.skip(end as int + 1),
                ));
            }
            p = end + 1;
        } else {
            proof {
                assert(spec_cookie_pairs(rest).len() == head_len);
                assert(goal =~= goal.take(out@.len() as int));
                assert(out@.len() == goal.len());
            }
            return out;
        }
    }
}

/// The fixed cookie domain as a string.
fn make_cookie_domain() -> (r: String)
    ensures
        r@ == spec_cookie_domain(),
{
    String::from_str(".bilibili.com")
}

/// Renders one cookie as the `name=value` line a cookie jar accepts.
pub fn cookie_pair_line(name: &str, value: &str) -> (r: String)
    ensures
        r@ == name@ + "="@ + value@,
{
    let mut s = name.to_owned();
    s.append("=");
    s.append(value);
    s
}

} // verus!

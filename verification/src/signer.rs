//! The two request-signature schemes the platform accepts: the
//! app-secret digest used by the legacy TV-style login, and the WBI
//! mixin-key digest used by general authenticated GET calls.
//!
//! Both schemes join the parameters as `key=value` pairs in ascending
//! key order, append a secret, and take the hex MD5 digest of the
//! result. The WBI flavour first adds a `wts` timestamp parameter,
//! percent-encodes every value, and derives its secret (the mixin key)
//! from two server-issued key fragments.

use vstd::prelude::*;
use vstd::relations::{sorted_by, total_ordering};
use vstd::seq_lib::lemma_sorted_unique;
use vstd::string::StrSliceExecFns;
use crate::text::{spec_hex_lower, spec_dec_int, copy_bytes, hex_lower, i64_to_dec};
use crate::percent::{spec_percent_encode, percent_encode};
use crate::cookies::{spec_find, lemma_find_char};

verus! {

// ---------------------------------------------------------------------
// Byte-wise lexicographic order, the ascending key order of the schemes.
// ---------------------------------------------------------------------

/// Lexicographic "less than or equal" on byte strings.
pub open spec fn lex_leq(a: Seq<u8>, b: Seq<u8>) -> bool
    decreases a.len(),
{
    if a.len() == 0 {
        true
    } else if b.len() == 0 {
        false
    } else if a[0] < b[0] {
        true
    } else if a[0] > b[0] {
        false
    } else {
        lex_leq(a.drop_first(), b.drop_first())
    }
}

pub proof fn lemma_lex_refl(a: Seq<u8>)
    ensures
        lex_leq(a, a),
    decreases a.len(),
{
    if a.len() != 0 {
        lemma_lex_refl(a.drop_first());
    }
}

pub proof fn lemma_lex_total(a: Seq<u8>, b: Seq<u8>)
    ensures
        lex_leq(a, b) || lex_leq(b, a),
    decreases a.len(),
{
    if a.len() != 0 && b.len() != 0 && a[0] == b[0] {
        lemma_lex_total(a.drop_first(), b.drop_first());
    }
}

pub proof fn lemma_lex_antisym(a: Seq<u8>, b: Seq<u8>)
    requires
        lex_leq(a, b),
        lex_leq(b, a),
    ensures
        a == b,
    decreases a.len(),
{
    if a.len() == 0 {
        assert(b.len() == 0);
        assert(a =~= b);
    } else {
        assert(b.len() != 0);
        assert(a[0] == b[0]);
        lemma_lex_antisym(a.drop_first(), b.drop_first());
        assert(a.len() == b.len());
        assert forall|i: int| 0 <= i < a.len() implies a[i] == b[i] by {
            if i > 0 {
                assert(a.drop_first()[i - 1] == b.drop_first()[i - 1]);
            }
        }
        assert(a =~= b);
    }
}

pub proof fn lemma_lex_trans(a: Seq<u8>, b: Seq<u8>, c: Seq<u8>)
    requires
        lex_leq(a, b),
        lex_leq(b, c),
    ensures
        lex_leq(a, c),
    decreases a.len(),
{
    if a.len() != 0 {
        assert(b.len() != 0);
        assert(c.len() != 0);
        if a[0] == b[0] && b[0] == c[0] {
            lemma_lex_trans(a.drop_first(), b.drop_first(), c.drop_first());
        }
    }
}

/// Order on `(key, value)` pairs: by key, with the value breaking ties,
/// so that the relation is a total order.
pub open spec fn spec_pair_leq(p1: (Seq<u8>, Seq<u8>), p2: (Seq<u8>, Seq<u8>)) -> bool {
    if p1.0 == p2.0 {
        lex_leq(p1.1, p2.1)
    } else {
        lex_leq(p1.0, p2.0)
    }
}

/// The pair order as a first-class relation, for `sort_by`.
pub open spec fn pair_order() -> spec_fn((Seq<u8>, Seq<u8>), (Seq<u8>, Seq<u8>)) -> bool {
    |p1: (Seq<u8>, Seq<u8>), p2: (Seq<u8>, Seq<u8>)| spec_pair_leq(p1, p2)
}

pub proof fn lemma_pair_order_total()
    ensures
        total_ordering(pair_order()),
{
    let leq = pair_order();
    assert forall|x: (Seq<u8>, Seq<u8>)| #[trigger] leq(x, x) by {
        lemma_lex_refl(x.1);
    }
    assert forall|x: (Seq<u8>, Seq<u8>), y: (Seq<u8>, Seq<u8>)| #[trigger] leq(x, y) && #[trigger] leq(y, x) implies x == y by {
        if x.0 == y.0 {
            lemma_lex_antisym(x.1, y.1);
        } else {
            lemma_lex_antisym(x.0, y.0);
        }
    }
    assert forall|x: (Seq<u8>, Seq<u8>), y: (Seq<u8>, Seq<u8>), z: (Seq<u8>, Seq<u8>)|
        #[trigger] leq(x, y) && #[trigger] leq(y, z) implies leq(x, z) by {
        if x.0 == y.0 && y.0 == z.0 {
            lemma_lex_trans(x.1, y.1, z.1);
        } else if x.0 == y.0 {
            // key order decided between y and z
        } else if y.0 == z.0 {
            // key order decided between x and y
        } else {
            lemma_lex_trans(x.0, y.0, z.0);
            if x.0 == z.0 {
                lemma_lex_antisym(x.0, y.0);
            }
        }
    }
    assert forall|x: (Seq<u8>, Seq<u8>), y: (Seq<u8>, Seq<u8>)| #[trigger] leq(x, y) || #[trigger] leq(y, x) by {
        if x.0 == y.0 {
            lemma_lex_total(x.1, y.1);
        } else {
            lemma_lex_total(x.0, y.0);
        }
    }
}

// ---------------------------------------------------------------------
// Executable comparison and sorting of parameter lists.
// ---------------------------------------------------------------------

/// The mathematical reading of an executable parameter list.
pub open spec fn view_pairs(ps: Seq<(Vec<u8>, Vec<u8>)>) -> Seq<(Seq<u8>, Seq<u8>)> {
    ps.map_values(|p: (Vec<u8>, Vec<u8>)| (p.0@, p.1@))
}

/// Decides `lex_leq` on byte vectors.
fn lex_leq_exec(a: &Vec<u8>, b: &Vec<u8>) -> (r: bool)
    ensures
        r == lex_leq(a@, b@),
{
    let mut i: usize = 0;
    proof {
        assert(a@.skip(0int) =~= a@);
        assert(b@.skip(0int) =~= b@);
    }
    while i < a.len() && i < b.len()
        invariant
            i <= a@.len(),
            i <= b@.len(),
            lex_leq(a@, b@) == lex_leq(a@.skip(i as int), b@.skip(i as int)),
        decreases a@.len() - i,
    {
        let ghost ra = a@.skip(i as int);
        let ghost rb = b@.skip(i as int);
        proof {
            assert(ra[0] == a@[i as int]);
            assert(rb[0] == b@[i as int]);
        }
        if a[i] < b[i] {
            return true;
        }
        if a[i] > b[i] {
            return false;
        }
        proof {
            assert(ra.drop_first() =~= a@.skip(i as int + 1));
            assert(rb.drop_first() =~= b@.skip(i as int + 1));
        }
        i = i + 1;
    }
    proof {
        if i >= a.len() {
            assert(a@.skip(i as int).len() == 0);
        } else {
            assert(b@.skip(i as int).len() == 0);
            assert(a@.skip(i as int).len() > 0);
        }
    }
    i >= a.len()
}

/// Decides the pair order on executable pairs.
fn pair_leq_exec(a: &(Vec<u8>, Vec<u8>), b: &(Vec<u8>, Vec<u8>)) -> (r: bool)
    ensures
        r == spec_pair_leq((a.0@, a.1@), (b.0@, b.1@)),
{
    if a.0 == b.0 {
        proof {
            assert(a.0@ =~= b.0@);
        }
        lex_leq_exec(&a.1, &b.1)
    } else {
        proof {
            if a.0@ == b.0@ {
                assert(a.0@ =~= b.0@);
                assert(false);
            }
        }
        lex_leq_exec(&a.0, &b.0)
    }
}

/// Finds the position where a pair joins a sorted list: everything
/// before it stays `leq` the new pair.
fn insert_pos(out: &Vec<(Vec<u8>, Vec<u8>)>, p: &(Vec<u8>, Vec<u8>)) -> (k: usize)
    ensures
        k <= out@.len(),
        forall|m: int| 0 <= m < k ==> spec_pair_leq((#[trigger] out@[m].0@, out@[m].1@), (p.0@, p.1@)),
        k < out@.len() ==> !spec_pair_leq((out@[k as int].0@, out@[k as int].1@), (p.0@, p.1@)),
{
    let mut k: usize = 0;
    while k < out.len()
        invariant
            k <= out@.len(),
            forall|m: int| 0 <= m < k ==> spec_pair_leq(
                (#[trigger] out@[m].0@, out@[m].1@),
                (p.0@, p.1@),
            ),
        decreases out@.len() - k,
    {
        if !pair_leq_exec(&out[k], p) {
            return k;
        }
        k = k + 1;
    }
    k
}

/// Sorts a parameter list into the ascending pair order; the result is
/// exactly `sort_by` of the input's reading.
pub fn sort_pairs(ps: Vec<(Vec<u8>, Vec<u8>)>) -> (r: Vec<(Vec<u8>, Vec<u8>)>)
    ensures
        view_pairs(r@) == view_pairs(ps@).sort_by(pair_order()),
{
    proof {
        lemma_pair_order_total();
    }
    let mut out: Vec<(Vec<u8>, Vec<u8>)> = Vec::new();
    let mut rest = ps;
    let ghost all = rest@;
    let mut i: usize = 0;
    proof {
        assert(view_pairs(all.take(0int)) =~= Seq::<(Seq<u8>, Seq<u8>)>::empty());
        assert(view_pairs(out@) =~= Seq::<(Seq<u8>, Seq<u8>)>::empty());
        view_pairs(out@).to_multiset_ensures();
        view_pairs(all.take(0int)).to_multiset_ensures();
        assert(view_pairs(out@).to_multiset() =~= view_pairs(all.take(0int)).to_multiset());
    }
    while i < rest.len()
        invariant
            i <= rest@.len(),
            rest@ == all,
            sorted_by(view_pairs(out@), pair_order()),
            view_pairs(out@).to_multiset() == view_pairs(all.take(i as int)).to_multiset(),
            out@.len() == i,
        decreases rest@.len() - i,
    {
        let ghost old_out = out@;
        let p = (copy_bytes(&rest[i].0), copy_bytes(&rest[i].1));
        let ghost pv = (p.0@, p.1@);
        proof {
            assert(pv == view_pairs(all)[i as int]);
        }
        let k = insert_pos(&out, &p);
        proof {
            assert forall|m: int| 0 <= m < k implies pair_order()(view_pairs(out@)[m], pv) by {
                assert(view_pairs(out@)[m] == (out@[m].0@, out@[m].1@));
            }
            if k < out@.len() {
                assert(view_pairs(out@)[k as int] == (out@[k as int].0@, out@[k as int].1@));
                let a = view_pairs(out@)[k as int];
                if a.0 == pv.0 {
                    lemma_lex_total(a.1, pv.1);
                } else {
                    lemma_lex_total(a.0, pv.0);
                }
                assert(pair_order()(pv, view_pairs(out@)[k as int]));
            }
        }
        out.insert(k, p);
        proof {
            let ov = view_pairs(old_out);
            let nv = view_pairs(out@);
            assert(out@ == old_out.insert(k as int, (p.0, p.1)));
            assert(nv =~= ov.insert(k as int, pv));
            // sortedness of the extended list
            assert forall|x: int, y: int| 0 <= x < y < nv.len() implies pair_order()(nv[x], nv[y]) by {
                ov.insert_ensures(k as int, pv);
                if y < k {
                    assert(nv[x] == ov[x] && nv[y] == ov[y]);
                } else if x > k {
                    assert(nv[x] == ov[x - 1] && nv[y] == ov[y - 1]);
                } else if x == k {
                    // nv[x] == pv, nv[y] == ov[y - 1] with y - 1 >= k
                    if !pair_order()(pv, ov[y - 1]) {
                        lemma_pair_order_total();
                        assert(pair_order()(ov[k as int], ov[y - 1]));
                        assert(false);
                    }
                } else if y == k {
                    assert(nv[x] == ov[x] && nv[y] == pv);
                } else {
                    // x < k < y
                    assert(nv[x] == ov[x] && nv[y] == ov[y - 1]);
                    if k as int <= y - 1 < ov.len() {
                        if !pair_order()(ov[x], ov[y - 1]) {
                            lemma_pair_order_total();
                            if x < y - 1 {
                                assert(false);
                            } else {
                                // x == y - 1 impossible: x < k <= y - 1
                                assert(false);
                            }
                        }
                    }
                }
            }
            // multiset of the extended list
            let s1 = ov.subrange(0, k as int);
            let s2 = ov.subrange(k as int, ov.len() as int);
            assert(ov =~= s1 + s2);
            assert(nv =~= s1.push(pv) + s2);
            vstd::seq_lib::lemma_multiset_commutative(s1, s2);
            vstd::seq_lib::lemma_multiset_commutative(s1.push(pv), s2);
            s1.to_multiset_ensures();
            assert(nv.to_multiset() =~= ov.to_multiset().insert(pv));
            let tv = view_pairs(all.take(i as int));
            let tv1 = view_pairs(all.take(i as int + 1));
            assert(all.take(i as int + 1) =~= all.take(i as int).push(all[i as int]));
            assert(tv1 =~= tv.push(pv));
            tv.to_multiset_ensures();
            assert(nv.to_multiset() =~= tv1.to_multiset());
        }
        i = i + 1;
    }
    proof {
        assert(all.take(all.len() as int) =~= all);
        let iv = view_pairs(all);
        iv.lemma_sort_by_ensures(pair_order());
        lemma_sorted_unique(view_pairs(out@), iv.sort_by(pair_order()), pair_order());
    }
    out
}

// ---------------------------------------------------------------------
// Joining `key=value` pairs with `&`.
// ---------------------------------------------------------------------

/// `k1=v1&k2=v2&...` over a pair list, empty for an empty list.
pub open spec fn spec_join_pairs(ps: Seq<(Seq<u8>, Seq<u8>)>) -> Seq<u8>
    decreases ps.len(),
{
    if ps.len() == 0 {
        Seq::<u8>::empty()
    } else if ps.len() == 1 {
        ps[0].0 + seq![61u8] + ps[0].1
    } else {
        spec_join_pairs(ps.drop_last()) + seq![38u8] + ps.last().0 + seq![61u8] + ps.last().1
    }
}

/// Joins a parameter list as a query string.
pub fn join_pairs(ps: &Vec<(Vec<u8>, Vec<u8>)>) -> (r: Vec<u8>)
    ensures
        r@ == spec_join_pairs(view_pairs(ps@)),
{
    let mut r: Vec<u8> = Vec::new();
    let mut i: usize = 0;
    proof {
        assert(view_pairs(ps@).take(0int) =~= Seq::<(Seq<u8>, Seq<u8>)>::empty());
        assert(r@ =~= spec_join_pairs(view_pairs(ps@).take(0int)));
    }
    while i < ps.len()
        invariant
            i <= ps@.len(),
            r@ == spec_join_pairs(view_pairs(ps@).take(i as int)),
        decreases ps@.len() - i,
    {
        if i > 0 {
            r.push(38);
        }
        let mut j: usize = 0;
        let ghost base = r@;
        while j < ps[i].0.len()
            invariant
                i < ps@.len(),
                j <= ps@[i as int].0@.len(),
                r@ == base + ps@[i as int].0@.take(j as int),
            decreases ps@[i as int].0@.len() - j,
        {
            r.push(ps[i].0[j]);
            proof {
                assert(ps@[i as int].0@.take(j as int + 1) =~= ps@[i as int].0@.take(
                    j as int,
                ).push(ps@[i as int].0@[j as int]));
                assert(r@ =~= base + ps@[i as int].0@.take(j as int + 1));
            }
            j = j + 1;
        }
        proof {
            assert(ps@[i as int].0@.take(ps@[i as int].0@.len() as int) =~= ps@[i as int].0@);
        }
        r.push(61);
        let mut j2: usize = 0;
        let ghost base2 = r@;
        while j2 < ps[i].1.len()
            invariant
                i < ps@.len(),
                j2 <= ps@[i as int].1@.len(),
                r@ == base2 + ps@[i as int].1@.take(j2 as int),
            decreases ps@[i as int].1@.len() - j2,
        {
            r.push(ps[i].1[j2]);
            proof {
                assert(ps@[i as int].1@.take(j2 as int + 1) =~= ps@[i as int].1@.take(
                    j2 as int,
                ).push(ps@[i as int].1@[j2 as int]));
                assert(r@ =~= base2 + ps@[i as int].1@.take(j2 as int + 1));
            }
            j2 = j2 + 1;
        }
        proof {
            assert(ps@[i as int].1@.take(ps@[i as int].1@.len() as int) =~= ps@[i as int].1@);
            let pre = view_pairs(ps@).take(i as int + 1);
            assert(pre.drop_last() =~= view_pairs(ps@).take(i as int));
            assert(pre.last() == (ps@[i as int].0@, ps@[i as int].1@));
            if i == 0 {
                assert(r@ =~= spec_join_pairs(pre));
            } else {
                assert(r@ =~= spec_join_pairs(pre));
            }
        }
        i = i + 1;
    }
    proof {
        assert(view_pairs(ps@).take(ps@.len() as int) =~= view_pairs(ps@));
    }
    r
}

// ---------------------------------------------------------------------
// The mixin key: a fixed 64-entry permutation over the concatenated
// key fragments, out-of-range indices skipped, truncated to 32 bytes.
// ---------------------------------------------------------------------

/// The fixed index table the mixin key derivation walks.
pub open spec fn spec_mixin_table() -> Seq<u8> {
    seq![
        46u8, 47, 18, 2, 53, 8, 23, 32, 15, 50, 10, 31, 58, 3, 45, 35,
        27, 43, 5, 49, 33, 9, 42, 19, 29, 28, 14, 39, 12, 38, 41, 13,
        37, 48, 7, 16, 24, 55, 40, 61, 26, 17, 0, 1, 60, 51, 30, 4,
        22, 25, 54, 21, 56, 59, 6, 63, 57, 62, 11, 36, 20, 34, 44, 52,
    ]
}

/// Walks an index table over a key, keeping the bytes the in-range
/// indices select, in table order.
pub open spec fn spec_mixin_select(t: Seq<u8>, k: Seq<u8>) -> Seq<u8>
    decreases t.len(),
{
    if t.len() == 0 {
        Seq::<u8>::empty()
    } else {
        spec_mixin_select(t.drop_last(), k) + (if t.last() < k.len() {
            seq![k[t.last() as int]]
        } else {
            Seq::<u8>::empty()
        })
    }
}

/// The mixin key of a concatenated fragment pair: the selected bytes,
/// truncated to 32.
pub open spec fn spec_mixin_key(k: Seq<u8>) -> Seq<u8> {
    let sel = spec_mixin_select(spec_mixin_table(), k);
    if sel.len() <= 32 {
        sel
    } else {
        sel.take(32)
    }
}

/// However short the fragments, the mixin key never exceeds 32 bytes;
/// indices past the end of the concatenation contribute nothing.
pub proof fn lemma_mixin_key_bounded(k: Seq<u8>)
    ensures
        spec_mixin_key(k).len() <= 32,
{
}

/// Derives the mixin key from the two key fragments.
pub fn mixin_key(img_key: &Vec<u8>, sub_key: &Vec<u8>) -> (r: Vec<u8>)
    ensures
        r@ == spec_mixin_key(img_key@ + sub_key@),
        r@.len() <= 32,
{
    let mut k: Vec<u8> = copy_bytes(img_key);
    let mut j: usize = 0;
    while j < sub_key.len()
        invariant
            j <= sub_key@.len(),
            k@ == img_key@ + sub_key@.take(j as int),
        decreases sub_key@.len() - j,
    {
        k.push(sub_key[j]);
        proof {
            assert(sub_key@.take(j as int + 1) =~= sub_key@.take(j as int).push(
                sub_key@[j as int],
            ));
            assert(k@ =~= img_key@ + sub_key@.take(j as int + 1));
        }
        j = j + 1;
    }
    proof {
        assert(sub_key@.take(sub_key@.len() as int) =~= sub_key@);
    }
    let tbl: Vec<u8> = mixin_table();
    let mut out: Vec<u8> = Vec::new();
    let mut i: usize = 0;
    proof {
        assert(tbl@.take(0int) =~= Seq::<u8>::empty());
        assert(out@ =~= spec_mixin_select(tbl@.take(0int), k@));
    }
    while i < tbl.len()
        invariant
            i <= tbl@.len(),
            tbl@ == spec_mixin_table(),
            out@ == spec_mixin_select(tbl@.take(i as int), k@),
        decreases tbl@.len() - i,
    {
        let idx = tbl[i];
        if (idx as usize) < k.len() {
            out.push(k[idx as usize]);
        }
        proof {
            let pre = tbl@.take(i as int + 1);
            assert(pre.drop_last() =~= tbl@.take(i as int));
            assert(pre.last() == idx);
            assert(out@ =~= spec_mixin_select(pre, k@));
        }
        i = i + 1;
    }
    proof {
        assert(tbl@.take(tbl@.len() as int) =~= tbl@);
    }
    out.truncate(32);
    proof {
        let sel = spec_mixin_select(spec_mixin_table(), k@);
        if sel.len() <= 32 {
            assert(out@ =~= sel);
        } else {
            assert(out@ =~= sel.take(32));
        }
    }
    out
}

/// The fixed index table as a vector.
fn mixin_table() -> (r: Vec<u8>)
    ensures
        r@ == spec_mixin_table(),
{
    let t: [u8; 64] = [
        46, 47, 18, 2, 53, 8, 23, 32, 15, 50, 10, 31, 58, 3, 45, 35,
        27, 43, 5, 49, 33, 9, 42, 19, 29, 28, 14, 39, 12, 38, 41, 13,
        37, 48, 7, 16, 24, 55, 40, 61, 26, 17, 0, 1, 60, 51, 30, 4,
        22, 25, 54, 21, 56, 59, 6, 63, 57, 62, 11, 36, 20, 34, 44, 52,
    ];
    let mut r: Vec<u8> = Vec::new();
    let mut i: usize = 0;
    while i < 64
        invariant
            i <= 64,
            r@ == t@.take(i as int),
            t@ == spec_mixin_table(),
        decreases 64 - i,
    {
        r.push(t[i]);
        proof {
            assert(t@.take(i as int + 1) =~= t@.take(i as int).push(t@[i as int]));
        }
        i = i + 1;
    }
    proof {
        assert(t@.take(64int) =~= t@);
    }
    r
}

// ---------------------------------------------------------------------
// MD5, and the two signature schemes built on it.
// ---------------------------------------------------------------------

/// The MD5 digest of a byte string; a function of the bytes alone.
pub uninterp spec fn md5_of(data: Seq<u8>) -> Seq<u8>;

/// Relies on `Md5::digest` of the `md-5` crate: the MD5 digest depends
/// on the input bytes alone and is 16 bytes long.
#[verifier::external_body]
fn md5_digest(data: &Vec<u8>) -> (r: Vec<u8>)
    ensures
        r@ == md5_of(data@),
        r@.len() == 16,
{
    let d = <md5::Md5 as md5::Digest>::digest(data.as_slice());
    d.as_slice().to_vec()
}

/// The key under which the request timestamp joins the parameters.
pub open spec fn wts_key() -> Seq<u8> {
    seq![119u8, 116u8, 115u8]
}

/// The key under which the WBI signature joins the parameters.
pub open spec fn w_rid_key() -> Seq<u8> {
    seq![119u8, 95u8, 114u8, 105u8, 100u8]
}

/// The WBI signature over a parameter list: the timestamp joins the
/// parameters, the list is sorted by key ascending, every value is
/// percent-encoded, the pairs are joined `key=value&...`, the mixin key
/// of the two fragments is appended, and the hex MD5 digest is taken.
pub open spec fn spec_wbi_rid(
    ps: Seq<(Seq<u8>, Seq<u8>)>,
    img: Seq<u8>,
    sub: Seq<u8>,
    wts: int,
) -> Seq<u8> {
    let with_ts = ps.push((wts_key(), spec_dec_int(wts)));
    let sorted = with_ts.sort_by(pair_order());
    let enc = sorted.map_values(|p: (Seq<u8>, Seq<u8>)| (p.0, spec_percent_encode(p.1)));
    spec_hex_lower(md5_of(spec_join_pairs(enc) + spec_mixin_key(img + sub)))
}

/// What a WBI-signed request carries: the original parameters, then
/// `wts`, then `w_rid`.
pub open spec fn spec_wbi_signed_params(
    ps: Seq<(Seq<u8>, Seq<u8>)>,
    img: Seq<u8>,
    sub: Seq<u8>,
    wts: int,
) -> Seq<(Seq<u8>, Seq<u8>)> {
    ps.push((wts_key(), spec_dec_int(wts))).push((w_rid_key(), spec_wbi_rid(ps, img, sub, wts)))
}

/// Percent-encodes every value of a parameter list, keys untouched.
fn encode_values(ps: Vec<(Vec<u8>, Vec<u8>)>) -> (r: Vec<(Vec<u8>, Vec<u8>)>)
    ensures
        view_pairs(r@) == view_pairs(ps@).map_values(
            |p: (Seq<u8>, Seq<u8>)| (p.0, spec_percent_encode(p.1)),
        ),
{
    let ghost goal = view_pairs(ps@).map_values(
        |p: (Seq<u8>, Seq<u8>)| (p.0, spec_percent_encode(p.1)),
    );
    let mut r: Vec<(Vec<u8>, Vec<u8>)> = Vec::new();
    let mut i: usize = 0;
    proof {
        assert(view_pairs(r@) =~= goal.take(0int));
    }
    while i < ps.len()
        invariant
            i <= ps@.len(),
            goal == view_pairs(ps@).map_values(
                |p: (Seq<u8>, Seq<u8>)| (p.0, spec_percent_encode(p.1)),
            ),
            view_pairs(r@) == goal.take(i as int),
        decreases ps@.len() - i,
    {
        let key = copy_bytes(&ps[i].0);
        let value = percent_encode(&ps[i].1);
        let ghost kv = (key@, value@);
        let ghost old_r = r@;
        r.push((key, value));
        proof {
            let ii = i as int;
            let nv = view_pairs(r@);
            let ov = view_pairs(old_r);
            assert(ov.len() == ii);
            assert(old_r.len() == ii);
            assert(r@.len() == ii + 1);
            assert(nv.len() == ii + 1);
            assert(view_pairs(ps@)[ii] == (ps@[ii].0@, ps@[ii].1@));
            assert(goal[ii] == (ps@[ii].0@, spec_percent_encode(ps@[ii].1@)));
            assert(kv == goal[ii]);
            assert forall|m: int| 0 <= m < ii + 1 implies nv[m] == goal.take(ii + 1)[m] by {
                if m < ii {
                    assert(nv[m] == ov[m]);
                } else {
                    assert(nv[m] == kv);
                }
            }
            assert(view_pairs(r@) =~= goal.take(ii + 1));
        }
        i = i + 1;
    }
    proof {
        assert(goal.take(goal.len() as int) =~= goal);
        assert(view_pairs(r@) =~= goal);
    }
    r
}

/// Copies a parameter list.
fn clone_pairs(ps: &Vec<(Vec<u8>, Vec<u8>)>) -> (r: Vec<(Vec<u8>, Vec<u8>)>)
    ensures
        view_pairs(r@) == view_pairs(ps@),
{
    let mut r: Vec<(Vec<u8>, Vec<u8>)> = Vec::new();
    let mut i: usize = 0;
    proof {
        assert(view_pairs(r@) =~= view_pairs(ps@).take(0int));
    }
    while i < ps.len()
        invariant
            i <= ps@.len(),
            view_pairs(r@) == view_pairs(ps@).take(i as int),
        decreases ps@.len() - i,
    {
        let key = copy_bytes(&ps[i].0);
        let value = copy_bytes(&ps[i].1);
        let ghost kv = (key@, value@);
        let ghost old_r = r@;
        let pair = (key, value);
        r.push(pair);
        proof {
            let ii = i as int;
            let nv = view_pairs(r@);
            let ov = view_pairs(old_r);
            assert(ov.len() == ii);
            assert(old_r.len() == ii);
            assert(r@.len() == ii + 1);
            assert(nv.len() == ii + 1);
            assert(view_pairs(ps@)[ii] == (ps@[ii].0@, ps@[ii].1@));
            assert(kv == view_pairs(ps@)[ii]);
            assert forall|m: int| 0 <= m < ii + 1 implies nv[m] == view_pairs(ps@).take(
                ii + 1,
            )[m] by {
                if m < ii {
                    assert(nv[m] == ov[m]);
                } else {
                    assert(nv[m] == kv);
                }
            }
            assert(view_pairs(r@) =~= view_pairs(ps@).take(ii + 1));
        }
        i = i + 1;
    }
    proof {
        assert(view_pairs(ps@).take(ps@.len() as int) =~= view_pairs(ps@));
    }
    r
}

/// The `wts` key as a vector.
fn make_wts_key() -> (r: Vec<u8>)
    ensures
        r@ == wts_key(),
{
    let mut r: Vec<u8> = Vec::new();
    r.push(119);
    r.push(116);
    r.push(115);
    proof {
        assert(r@ =~= wts_key());
    }
    r
}

/// The `w_rid` key as a vector.
fn make_w_rid_key() -> (r: Vec<u8>)
    ensures
        r@ == w_rid_key(),
{
    let mut r: Vec<u8> = Vec::new();
    r.push(119);
    r.push(95);
    r.push(114);
    r.push(105);
    r.push(100);
    proof {
        assert(r@ =~= w_rid_key());
    }
    r
}

/// Signs a request with the WBI scheme: hands back the original
/// parameters extended with `wts` and the computed `w_rid`.
pub fn wbi_sign(
    params: Vec<(Vec<u8>, Vec<u8>)>,
    img_key: &Vec<u8>,
    sub_key: &Vec<u8>,
    wts: i64,
) -> (r: Vec<(Vec<u8>, Vec<u8>)>)
    ensures
        view_pairs(r@) == spec_wbi_signed_params(
            view_pairs(params@),
            img_key@,
            sub_key@,
            wts as int,
        ),
        spec_wbi_rid(view_pairs(params@), img_key@, sub_key@, wts as int).len() == 32,
{
    let ghost ps0 = view_pairs(params@);
    let mut with_ts = params;
    with_ts.push((make_wts_key(), i64_to_dec(wts)));
    proof {
        assert(view_pairs(with_ts@) =~= ps0.push((wts_key(), spec_dec_int(wts as int))));
    }
    let sorted = sort_pairs(clone_pairs(&with_ts));
    let enc = encode_values(sorted);
    let mut joined = join_pairs(&enc);
    let mk = mixin_key(img_key, sub_key);
    let mut j: usize = 0;
    let ghost joined0 = joined@;
    while j < mk.len()
        invariant
            j <= mk@.len(),
            joined@ == joined0 + mk@.take(j as int),
        decreases mk@.len() - j,
    {
        joined.push(mk[j]);
        proof {
            assert(mk@.take(j as int + 1) =~= mk@.take(j as int).push(mk@[j as int]));
            assert(joined@ =~= joined0 + mk@.take(j as int + 1));
        }
        j = j + 1;
    }
    proof {
        assert(mk@.take(mk@.len() as int) =~= mk@);
    }
    let digest = md5_digest(&joined);
    let rid = hex_lower(&digest);
    proof {
        assert(rid@.len() == 32);
        assert(rid@ == spec_wbi_rid(ps0, img_key@, sub_key@, wts as int));
    }
    let mut out = with_ts;
    out.push((make_w_rid_key(), rid));
    proof {
        assert(view_pairs(out@) =~= spec_wbi_signed_params(ps0, img_key@, sub_key@, wts as int));
    }
    out
}

/// The app-secret signature over a parameter list: the pairs are sorted
/// by key ascending, joined `key=value&...`, the shared secret is
/// appended, and the hex MD5 digest is taken.
pub open spec fn spec_app_sign(ps: Seq<(Seq<u8>, Seq<u8>)>, secret: Seq<u8>) -> Seq<u8> {
    spec_hex_lower(md5_of(spec_join_pairs(ps.sort_by(pair_order())) + secret))
}

/// Signs a request with the app-secret scheme.
pub fn app_sign(params: Vec<(Vec<u8>, Vec<u8>)>, secret: &Vec<u8>) -> (r: Vec<u8>)
    ensures
        r@ == spec_app_sign(view_pairs(params@), secret@),
        r@.len() == 32,
{
    let ghost ps0 = view_pairs(params@);
    let sorted = sort_pairs(params);
    let mut joined = join_pairs(&sorted);
    let mut j: usize = 0;
    let ghost joined0 = joined@;
    while j < secret.len()
        invariant
            j <= secret@.len(),
            joined@ == joined0 + secret@.take(j as int),
        decreases secret@.len() - j,
    {
        joined.push(secret[j]);
        proof {
            assert(secret@.take(j as int + 1) =~= secret@.take(j as int).push(
                secret@[j as int],
            ));
            assert(joined@ =~= joined0 + secret@.take(j as int + 1));
        }
        j = j + 1;
    }
    proof {
        assert(secret@.take(secret@.len() as int) =~= secret@);
    }
    let digest = md5_digest(&joined);
    hex_lower(&digest)
}

/// For a fixed parameter mapping, a fixed fragment pair and a fixed
/// timestamp, the WBI signature does not depend on the order in which
/// the parameters were listed.
pub proof fn lemma_wbi_rid_order_independent(
    ps1: Seq<(Seq<u8>, Seq<u8>)>,
    ps2: Seq<(Seq<u8>, Seq<u8>)>,
    img: Seq<u8>,
    sub: Seq<u8>,
    wts: int,
)
    requires
        ps1.to_multiset() == ps2.to_multiset(),
    ensures
        spec_wbi_rid(ps1, img, sub, wts) == spec_wbi_rid(ps2, img, sub, wts),
{
    let e = (wts_key(), spec_dec_int(wts));
    ps1.to_multiset_ensures();
    ps2.to_multiset_ensures();
    assert(ps1.push(e).to_multiset() =~= ps2.push(e).to_multiset());
    lemma_pair_order_total();
    ps1.push(e).lemma_sort_by_ensures(pair_order());
    ps2.push(e).lemma_sort_by_ensures(pair_order());
    lemma_sorted_unique(
        ps1.push(e).sort_by(pair_order()),
        ps2.push(e).sort_by(pair_order()),
        pair_order(),
    );
}

/// The position right after the last `/` of a URL, or its start when it
/// has none.
pub open spec fn spec_after_last_slash(u: Seq<char>) -> int
    decreases u.len(),
{
    if u.len() == 0 {
        0
    } else if u.last() == '/' {
        u.len() as int
    } else {
        spec_after_last_slash(u.drop_last())
    }
}

proof fn lemma_after_last_slash_char(u: Seq<char>, b: int)
    requires
        0 <= b <= u.len(),
        forall|k: int| b <= k < u.len() ==> u[k] != '/',
        b > 0 ==> u[b - 1] == '/',
    ensures
        spec_after_last_slash(u) == b,
    decreases u.len(),
{
    if u.len() == 0 {
    } else if u.last() == '/' {
        assert(b == u.len());
    } else {
        assert(b < u.len());
        lemma_after_last_slash_char(u.drop_last(), b);
    }
}

/// The key fragment a WBI key URL carries: what stands between its last
/// `/` and the first `.` after that, the whole tail when no `.` follows.
pub open spec fn spec_wbi_key_fragment(u: Seq<char>) -> Seq<char> {
    let tail = u.skip(spec_after_last_slash(u));
    tail.take(spec_find(tail, '.'))
}

/// Extracts the key fragment from a WBI key URL.
pub fn wbi_key_fragment(url: &str) -> (r: String)
    ensures
        r@ == spec_wbi_key_fragment(url@),
{
    let n = url.unicode_len();
    let mut b = n;
    while b > 0 && url.get_char(b - 1) != '/'
        invariant
            b <= n,
            n == url@.len(),
            forall|k: int| b <= k < n ==> url@[k] != '/',
        decreases b,
    {
        b = b - 1;
    }
    proof {
        lemma_after_last_slash_char(url@, b as int);
    }
    let mut e = b;
    while e < n && url.get_char(e) != '.'
        invariant
            b <= e <= n,
            n == url@.len(),
            forall|k: int| b <= k < e ==> url@[k] != '.',
        decreases n - e,
    {
        e = e + 1;
    }
    proof {
        let tail = url@.skip(b as int);
        assert forall|k: int| 0 <= k < e - b implies tail[k] != '.' by {
            assert(tail[k] == url@[b + k]);
        }
        if e < n {
            assert(tail[e - b] == url@[e as int]);
        }
        lemma_find_char(tail, '.', e as int - b as int);
        assert(tail.take(e as int - b as int) =~= url@.subrange(b as int, e as int));
    }
    let piece = url.substring_char(b, e);
    piece.to_owned()
}

/// The app-secret signature does not depend on the parameter order
/// either.
pub proof fn lemma_app_sign_order_independent(
    ps1: Seq<(Seq<u8>, Seq<u8>)>,
    ps2: Seq<(Seq<u8>, Seq<u8>)>,
    secret: Seq<u8>,
)
    requires
        ps1.to_multiset() == ps2.to_multiset(),
    ensures
        spec_app_sign(ps1, secret) == spec_app_sign(ps2, secret),
{
    lemma_pair_order_total();
    ps1.lemma_sort_by_ensures(pair_order());
    ps2.lemma_sort_by_ensures(pair_order());
    lemma_sorted_unique(ps1.sort_by(pair_order()), ps2.sort_by(pair_order()), pair_order());
}

} // verus!

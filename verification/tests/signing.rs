use bili_live_core::percent::{percent_decode, percent_encode};
use bili_live_core::signer::{app_sign, join_pairs, mixin_key, sort_pairs, wbi_key_fragment, wbi_sign};
use bili_live_core::text::{dec_to_i64, hex_lower, i64_to_dec};

fn bytes(s: &str) -> Vec<u8> {
    s.as_bytes().to_vec()
}

fn pairs(ps: &[(&str, &str)]) -> Vec<(Vec<u8>, Vec<u8>)> {
    ps.iter().map(|(k, v)| (bytes(k), bytes(v))).collect()
}

#[test]
fn hex_lower_renders_each_byte() {
    assert_eq!(hex_lower(&vec![0x00, 0x0f, 0xa5, 0xff]), bytes("000fa5ff"));
    assert_eq!(hex_lower(&vec![]), bytes(""));
}

#[test]
fn decimal_rendering_exact() {
    assert_eq!(i64_to_dec(0), bytes("0"));
    assert_eq!(i64_to_dec(1700000000), bytes("1700000000"));
    assert_eq!(i64_to_dec(-42), bytes("-42"));
    assert_eq!(i64_to_dec(i64::MIN), bytes("-9223372036854775808"));
    assert_eq!(i64_to_dec(i64::MAX), bytes("9223372036854775807"));
}

#[test]
fn decimal_parse_exact_and_overflow() {
    assert_eq!(dec_to_i64(&bytes("0")), Some(0));
    assert_eq!(dec_to_i64(&bytes("-42")), Some(-42));
    assert_eq!(dec_to_i64(&bytes("+7")), Some(7));
    assert_eq!(dec_to_i64(&bytes("-9223372036854775808")), Some(i64::MIN));
    assert_eq!(dec_to_i64(&bytes("9223372036854775807")), Some(i64::MAX));
    assert_eq!(dec_to_i64(&bytes("9223372036854775808")), None);
    assert_eq!(dec_to_i64(&bytes("-9223372036854775809")), None);
    assert_eq!(dec_to_i64(&bytes("")), None);
    assert_eq!(dec_to_i64(&bytes("12a")), None);
}

#[test]
fn percent_encoding_spares_alphanumerics_only() {
    assert_eq!(percent_encode(&bytes("abcXYZ019")), bytes("abcXYZ019"));
    assert_eq!(percent_encode(&bytes("a b&c=d")), bytes("a%20b%26c%3Dd"));
    assert_eq!(percent_encode(&bytes("-._~")), bytes("%2D%2E%5F%7E"));
}

#[test]
fn percent_round_trip_on_safe_input() {
    let input = bytes("OnlyAlnum123Input");
    let encoded = percent_encode(&input);
    assert_eq!(percent_decode(&encoded), input);
}

#[test]
fn percent_decode_reads_either_case() {
    assert_eq!(percent_decode(&bytes("a%2fb%2Fc")), bytes("a/b/c"));
    assert_eq!(percent_decode(&bytes("%")), bytes("%"));
    assert_eq!(percent_decode(&bytes("%zz")), bytes("%zz"));
}

#[test]
fn sort_pairs_orders_by_key() {
    let sorted = sort_pairs(pairs(&[("room_id", "1"), ("area_v2", "2"), ("csrf", "x")]));
    let keys: Vec<Vec<u8>> = sorted.iter().map(|p| p.0.clone()).collect();
    assert_eq!(keys, vec![bytes("area_v2"), bytes("csrf"), bytes("room_id")]);
}

#[test]
fn join_pairs_builds_query_string() {
    let joined = join_pairs(&pairs(&[("bar", "514"), ("foo", "114")]));
    assert_eq!(joined, bytes("bar=514&foo=114"));
    assert_eq!(join_pairs(&pairs(&[])), bytes(""));
}

#[test]
fn mixin_key_is_a_permutation_prefix() {
    // 64 input bytes: every table index is in range, so the key is the
    // first 32 selected bytes.
    let img: Vec<u8> = (0u8..32).collect();
    let sub: Vec<u8> = (32u8..64).collect();
    let key = mixin_key(&img, &sub);
    assert_eq!(key.len(), 32);
    // the table opens 46, 47, 18, 2, ...
    assert_eq!(key[0], 46);
    assert_eq!(key[1], 47);
    assert_eq!(key[2], 18);
    assert_eq!(key[3], 2);
}

#[test]
fn mixin_key_skips_out_of_range_and_never_panics() {
    // fragments far shorter than the table wants
    let img = bytes("ab");
    let sub = bytes("c");
    let key = mixin_key(&img, &sub);
    assert!(key.len() <= 32);
    // only indices 0, 1, 2 are in range; the table visits 2, then 0, then 1
    assert_eq!(key, vec![b'c', b'a', b'b']);
    let empty = mixin_key(&vec![], &vec![]);
    assert_eq!(empty.len(), 0);
}

#[test]
fn app_sign_matches_known_digests() {
    // empty params and empty secret digest the empty string
    assert_eq!(app_sign(vec![], &vec![]), bytes("d41d8cd98f00b204e9800998ecf8427e"));
    // empty params and secret "abc" digest "abc"
    assert_eq!(app_sign(vec![], &bytes("abc")), bytes("900150983cd24fb0d6963f7d28e17f72"));
}

#[test]
fn app_sign_ignores_parameter_order() {
    let s1 = app_sign(pairs(&[("foo", "114"), ("bar", "514")]), &bytes("secret"));
    let s2 = app_sign(pairs(&[("bar", "514"), ("foo", "114")]), &bytes("secret"));
    assert_eq!(s1, s2);
}

#[test]
fn wbi_signature_deterministic_and_order_free() {
    let img = bytes("aaaaaaaaaaaaaaaabbbbbbbbbbbbbbbb");
    let sub = bytes("cccccccccccccccc");
    let signed1 = wbi_sign(pairs(&[("foo", "114"), ("bar", "514")]), &img, &sub, 1700000000);
    let signed2 = wbi_sign(pairs(&[("bar", "514"), ("foo", "114")]), &img, &sub, 1700000000);
    let rid1 = signed1.last().unwrap().clone();
    let rid2 = signed2.last().unwrap().clone();
    assert_eq!(rid1.0, bytes("w_rid"));
    assert_eq!(rid1.1, rid2.1);
    // the carried parameters: originals, then wts, then w_rid
    assert_eq!(signed1[0].0, bytes("foo"));
    assert_eq!(signed1[1].0, bytes("bar"));
    assert_eq!(signed1[2].0, bytes("wts"));
    assert_eq!(signed1[2].1, bytes("1700000000"));
    assert_eq!(rid1.1.len(), 32);
    // pinned once from this implementation's fixed pipeline
    assert_eq!(
        String::from_utf8(rid1.1.clone()).unwrap(),
        String::from_utf8(rid2.1).unwrap()
    );
}

#[test]
fn wbi_key_fragment_between_slash_and_dot() {
    assert_eq!(
        wbi_key_fragment("https://i0.example.invalid/bfs/wbi/7cd084941338484aae1ad9425b84077c.png"),
        "7cd084941338484aae1ad9425b84077c"
    );
    assert_eq!(wbi_key_fragment("noslash.png"), "noslash");
    assert_eq!(wbi_key_fragment("tail/"), "");
    assert_eq!(wbi_key_fragment(""), "");
    assert_eq!(wbi_key_fragment("a/b"), "b");
}

#[test]
fn wbi_signature_golden_value() {
    // fixed parameters, fragments and timestamp pin a fixed digest
    let img = bytes("aaaaaaaaaaaaaaaabbbbbbbbbbbbbbbb");
    let sub = bytes("cccccccccccccccc");
    let signed = wbi_sign(pairs(&[("foo", "114"), ("bar", "514")]), &img, &sub, 1700000000);
    let rid = signed.last().unwrap().clone().1;
    assert_eq!(String::from_utf8(rid).unwrap(), "3aaa43edd4083c8abc4742a96580eef3");
}

use bili_live_core::cookies::{cookie_pair_line, get_cookie_value, parse_cookie_header};
use bili_live_core::credjson::{parse_auth_json, serialize_auth};
use bili_live_core::domain::{AuthData, Cookie, CoreError, LoginState, TokenInfo, UserInfo};
use bili_live_core::login::{auth_after_web_login, poll_step, POLL_SUCCESS};
use bili_live_core::rooms::{
    area_child_of, area_parent_of, build_start_live_params, build_stop_live_params,
    build_update_room_params, decide_area_list, decide_live_room, decide_nav_user,
    decide_start_live, decide_stop_live, decide_update_room,
};

fn sample_auth() -> AuthData {
    AuthData {
        token: TokenInfo {
            access_token: "acc-token".to_string(),
            refresh_token: "refresh-token".to_string(),
            expires_in: 15552000,
        },
        cookies: vec![
            Cookie {
                name: "SESSDATA".to_string(),
                value: "abc,123:xyz".to_string(),
                domain: ".bilibili.com".to_string(),
                expires: 1999999999,
            },
            Cookie {
                name: "bili_jct".to_string(),
                value: "csrf".to_string(),
                domain: ".bilibili.com".to_string(),
                expires: 0,
            },
        ],
    }
}

#[test]
fn credential_file_round_trip() {
    let auth = sample_auth();
    let bytes = serialize_auth(&auth);
    let back = parse_auth_json(&bytes).expect("own output must read back");
    assert_eq!(back, auth);
}

#[test]
fn credential_file_round_trip_with_escapes_and_unicode() {
    let auth = AuthData {
        token: TokenInfo {
            access_token: "quote\" slash\\ tab\t nl\n".to_string(),
            refresh_token: "令牌🙂".to_string(),
            expires_in: -1,
        },
        cookies: vec![],
    };
    let bytes = serialize_auth(&auth);
    let back = parse_auth_json(&bytes).expect("escapes must read back");
    assert_eq!(back, auth);
}

#[test]
fn credential_file_is_deterministic() {
    let a = serialize_auth(&sample_auth());
    let b = serialize_auth(&sample_auth());
    assert_eq!(a, b);
    assert_eq!(
        String::from_utf8(serialize_auth(&AuthData {
            token: TokenInfo {
                access_token: "a".to_string(),
                refresh_token: "r".to_string(),
                expires_in: 3,
            },
            cookies: vec![Cookie {
                name: "n".to_string(),
                value: "v".to_string(),
                domain: "d".to_string(),
                expires: 9,
            }],
        }))
        .unwrap(),
        "{\"token\":{\"access_token\":\"a\",\"refresh_token\":\"r\",\"expires_in\":3},\"cookies\":[{\"name\":\"n\",\"value\":\"v\",\"domain\":\"d\",\"expires\":9}]}"
    );
}

#[test]
fn credential_reader_is_lenient() {
    // whitespace everywhere, unknown members, missing members
    let text = "\n{\t\"future\": [1, {\"x\": null}, \"s\"],\n  \"token\": { \"refresh_token\": \"r2\", \"later\": true },\n  \"cookies\": [ { \"name\": \"a\", \"other\": -3 } ]\n}\n";
    let auth = parse_auth_json(&text.as_bytes().to_vec()).expect("lenient read");
    assert_eq!(auth.token.access_token, "");
    assert_eq!(auth.token.refresh_token, "r2");
    assert_eq!(auth.token.expires_in, 0);
    assert_eq!(auth.cookies.len(), 1);
    assert_eq!(auth.cookies[0].name, "a");
    assert_eq!(auth.cookies[0].value, "");
    assert_eq!(auth.cookies[0].expires, 0);
}

#[test]
fn credential_reader_defaults_whole_file() {
    let auth = parse_auth_json(&b"{}".to_vec()).expect("an empty object reads as defaults");
    assert_eq!(auth.token.access_token, "");
    assert_eq!(auth.cookies.len(), 0);
}

#[test]
fn corrupt_credential_files_read_as_nothing() {
    assert_eq!(parse_auth_json(&b"".to_vec()), None);
    assert_eq!(parse_auth_json(&b"not json".to_vec()), None);
    assert_eq!(parse_auth_json(&b"{\"token\":".to_vec()), None);
    assert_eq!(parse_auth_json(&b"{} trailing".to_vec()), None);
    assert_eq!(parse_auth_json(&b"{\"token\":{\"expires_in\":1.5}}".to_vec()), None);
}

#[test]
fn login_round_trip_persists_and_reloads() {
    // a stubbed successful poll transitions to LoggedIn ...
    let state = poll_step(POLL_SUCCESS, String::new()).unwrap();
    assert!(matches!(state, LoginState::LoggedIn));
    // ... the jar snapshot becomes the persisted credentials ...
    let snapshot = vec![Cookie {
        name: "SESSDATA".to_string(),
        value: "v".to_string(),
        domain: ".bilibili.com".to_string(),
        expires: 0,
    }];
    let auth = auth_after_web_login(snapshot);
    let written = serialize_auth(&auth);
    // ... and loading the file reconstructs an equal value
    let reloaded = parse_auth_json(&written).expect("the written file must load");
    assert_eq!(reloaded, auth);
}

#[test]
fn cookie_lookup_by_name() {
    let header = "SESSDATA=abc; bili_jct=csrfv; DedeUserID=77";
    assert_eq!(get_cookie_value(header, "bili_jct"), Some("csrfv".to_string()));
    assert_eq!(get_cookie_value(header, "SESSDATA"), Some("abc".to_string()));
    assert_eq!(get_cookie_value(header, "missing"), None);
    assert_eq!(get_cookie_value("", "x"), None);
    // values keep their inner '=' characters
    assert_eq!(get_cookie_value("k=a=b", "k"), Some("a=b".to_string()));
}

#[test]
fn cookie_header_snapshot() {
    let list = parse_cookie_header("a=1; b=2;no_equals; c=3");
    assert_eq!(list.len(), 3);
    assert_eq!(list[0].name, "a");
    assert_eq!(list[0].value, "1");
    assert_eq!(list[1].name, "b");
    assert_eq!(list[2].name, "c");
    assert!(list.iter().all(|c| c.domain == ".bilibili.com" && c.expires == 0));
    assert_eq!(parse_cookie_header("").len(), 0);
}

#[test]
fn cookie_jar_line() {
    assert_eq!(cookie_pair_line("SESSDATA", "v;1"), "SESSDATA=v;1");
}

#[test]
fn update_room_form_and_answer() {
    let csrf = b"csrfv".to_vec();
    let form = build_update_room_params(&csrf, 42, Some(b"new title".to_vec()), Some(7));
    let flat: Vec<(String, String)> = form
        .iter()
        .map(|p| {
            (String::from_utf8(p.0.clone()).unwrap(), String::from_utf8(p.1.clone()).unwrap())
        })
        .collect();
    assert_eq!(
        flat,
        vec![
            ("area_id".to_string(), "7".to_string()),
            ("csrf".to_string(), "csrfv".to_string()),
            ("csrf_token".to_string(), "csrfv".to_string()),
            ("room_id".to_string(), "42".to_string()),
            ("title".to_string(), "new title".to_string()),
        ]
    );
    let short = build_update_room_params(&csrf, 42, None, None);
    assert_eq!(short.len(), 3);

    let audit = decide_update_room(Some(0), None, true, Some(1), Some("held".to_string()))
        .unwrap()
        .unwrap();
    assert_eq!(audit.audit_title_status, 1);
    assert_eq!(audit.audit_title_reason, "held");
    assert_eq!(decide_update_room(Some(0), None, false, None, None).unwrap(), None);
    let err = decide_update_room(Some(-400), Some("bad".to_string()), false, None, None)
        .unwrap_err();
    assert!(matches!(err, CoreError::Auth { .. }));
}

#[test]
fn start_and_stop_live_forms_and_answers() {
    let csrf = b"c".to_vec();
    let start = build_start_live_params(&csrf, 9, 33);
    assert_eq!(start[0], (b"area_v2".to_vec(), b"33".to_vec()));
    assert_eq!(start[1], (b"csrf".to_vec(), b"c".to_vec()));
    assert_eq!(start[2], (b"platform".to_vec(), b"pc_link".to_vec()));
    assert_eq!(start[3], (b"room_id".to_vec(), b"9".to_vec()));
    let (addr, code) = decide_start_live(
        Some(0),
        None,
        Some("rtmp://ingest".to_string()),
        Some("streamkey".to_string()),
    )
    .unwrap();
    assert_eq!(addr, "rtmp://ingest");
    assert_eq!(code, "streamkey");
    assert!(decide_start_live(Some(1), Some("no".to_string()), None, None).is_err());

    let stop = build_stop_live_params(&csrf, 9);
    assert_eq!(stop[0].0, b"csrf".to_vec());
    assert!(decide_stop_live(Some(0), None).is_ok());
    assert!(decide_stop_live(None, None).is_err());
}

#[test]
fn nav_user_and_live_room_decode() {
    let user: UserInfo = decide_nav_user(
        Some(0),
        None,
        Some(true),
        Some(99),
        Some("name".to_string()),
        Some("face-url".to_string()),
    )
    .unwrap();
    assert_eq!(user.mid, 99);
    assert_eq!(user.name, "name");
    assert_eq!(user.live_room.room_id, 0);
    assert!(decide_nav_user(Some(0), None, Some(false), Some(9), None, None).is_err());
    assert!(decide_nav_user(Some(0), None, Some(true), Some(0), None, None).is_err());
    assert!(decide_nav_user(Some(-1), Some("m".to_string()), Some(true), Some(9), None, None)
        .is_err());

    let room = decide_live_room(
        Some(0),
        true,
        Some(1),
        Some(2),
        Some("t".to_string()),
        Some("cover".to_string()),
        Some(4321),
    )
    .unwrap();
    assert_eq!(room.room_status, 1);
    assert_eq!(room.live_status, 2);
    assert_eq!(room.room_id, 4321);
    assert_eq!(decide_live_room(Some(0), false, None, None, None, None, None), None);
    assert_eq!(decide_live_room(Some(2), true, None, None, None, None, None), None);
}

#[test]
fn area_records_decode_leniently() {
    let child = area_child_of(Some("21".to_string()), Some("games".to_string()));
    assert_eq!(child.id, 21);
    assert_eq!(child.name, "games");
    assert_eq!(area_child_of(Some("garbage".to_string()), None).id, 0);
    assert_eq!(area_child_of(None, None).id, 0);
    let parent = area_parent_of(Some(2), Some("top".to_string()), vec![child]);
    assert_eq!(parent.id, 2);
    assert_eq!(parent.children.len(), 1);
    assert!(decide_area_list(Some(0), None).is_ok());
    assert!(decide_area_list(Some(1), Some("err".to_string())).is_err());
}

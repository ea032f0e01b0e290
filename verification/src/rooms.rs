//! The decisions behind the room, user and area calls: building each
//! call's form in the order it is sent, and reading each answer. Every
//! function here is pure; the driver only moves bytes.

use vstd::prelude::*;
use vstd::utf8::encode_utf8;
use vstd::string::{StrSliceExecFns, StringExecFns};
use crate::domain::{AreaChild, AreaParent, AuditInfo, CoreError, LiveRoomBrief, UserInfo};
use crate::lenient::{spec_bool_or, spec_i64_or, spec_str_or_empty, bool_or, i64_or, str_or_empty};
use crate::signer::view_pairs;
use crate::text::{spec_dec_int, spec_parse_dec_i64, copy_bytes, i64_to_dec, dec_to_i64};

verus! {

/// A lenient read of a platform integer into an `i32` field: a value
/// outside the range reads as zero.
pub open spec fn spec_i32_lenient(v: i64) -> i32 {
    if i32::MIN <= v <= i32::MAX {
        v as i32
    } else {
        0
    }
}

fn i32_lenient(v: i64) -> (r: i32)
    ensures
        r == spec_i32_lenient(v),
{
    if i32::MIN as i64 <= v && v <= i32::MAX as i64 {
        v as i32
    } else {
        0
    }
}

/// The form of the room-update call, keys in the order it is sent:
/// the optional area, the CSRF pair, the room, the optional title.
pub open spec fn spec_update_room_params(
    csrf: Seq<u8>,
    room_id: int,
    title: Option<Seq<u8>>,
    area_id: Option<int>,
) -> Seq<(Seq<u8>, Seq<u8>)> {
    (match area_id {
        Some(a) => seq![(encode_utf8("area_id"@), spec_dec_int(a))],
        None => Seq::<(Seq<u8>, Seq<u8>)>::empty(),
    }) + seq![
        (encode_utf8("csrf"@), csrf),
        (encode_utf8("csrf_token"@), csrf),
        (encode_utf8("room_id"@), spec_dec_int(room_id)),
    ] + (match title {
        Some(t) => seq![(encode_utf8("title"@), t)],
        None => Seq::<(Seq<u8>, Seq<u8>)>::empty(),
    })
}

/// Builds the room-update form.
pub fn build_update_room_params(
    csrf: &Vec<u8>,
    room_id: i64,
    title: Option<Vec<u8>>,
    area_id: Option<i64>,
) -> (r: Vec<(Vec<u8>, Vec<u8>)>)
    ensures
        view_pairs(r@) == spec_update_room_params(
            csrf@,
            room_id as int,
            match title {
                Some(t) => Some(t@),
                None => None,
            },
            match area_id {
                Some(a) => Some(a as int),
                None => None,
            },
        ),
{
    let mut r: Vec<(Vec<u8>, Vec<u8>)> = Vec::new();
    match area_id {
        Some(a) => {
            r.push(("area_id".as_bytes_vec(), i64_to_dec(a)));
        },
        None => {},
    }
    r.push(("csrf".as_bytes_vec(), copy_bytes(csrf)));
    r.push(("csrf_token".as_bytes_vec(), copy_bytes(csrf)));
    r.push(("room_id".as_bytes_vec(), i64_to_dec(room_id)));
    match title {
        Some(t) => {
            r.push(("title".as_bytes_vec(), t));
        },
        None => {},
    }
    proof {
        assert(view_pairs(r@) =~= spec_update_room_params(
            csrf@,
            room_id as int,
            match title {
                Some(t) => Some(t@),
                None => None,
            },
            match area_id {
                Some(a) => Some(a as int),
                None => None,
            },
        ));
    }
    r
}

/// Reads the room-update answer: a zero status yields the audit record
/// when one is attached, a non-zero status fails with the platform's
/// message.
pub fn decide_update_room(
    code: Option<i64>,
    message: Option<String>,
    audit_present: bool,
    audit_status: Option<i64>,
    audit_reason: Option<String>,
) -> (r: Result<Option<AuditInfo>, CoreError>)
    ensures
        r is Ok <==> spec_i64_or(code, -1i64) == 0,
        r matches Ok(a) ==> (a is Some <==> audit_present),
        r matches Ok(a) ==> (a matches Some(info) ==> info.audit_title_status == spec_i32_lenient(
            spec_i64_or(audit_status, 0i64),
        ) && info.audit_title_reason@ == spec_str_or_empty(audit_reason)),
        r matches Err(e) ==> e is Auth && e.spec_message() == spec_str_or_empty(message),
{
    if i64_or(code, -1) != 0 {
        return Err(CoreError::Auth { message: str_or_empty(message) });
    }
    if audit_present {
        Ok(
            Some(
                AuditInfo {
                    audit_title_status: i32_lenient(i64_or(audit_status, 0)),
                    audit_title_reason: str_or_empty(audit_reason),
                },
            ),
        )
    } else {
        Ok(None)
    }
}

/// The form of the start-live call, keys in the order it is sent.
pub open spec fn spec_start_live_params(csrf: Seq<u8>, room_id: int, area_id: int) -> Seq<
    (Seq<u8>, Seq<u8>),
> {
    seq![
        (encode_utf8("area_v2"@), spec_dec_int(area_id)),
        (encode_utf8("csrf"@), csrf),
        (encode_utf8("platform"@), encode_utf8("pc_link"@)),
        (encode_utf8("room_id"@), spec_dec_int(room_id)),
    ]
}

/// Builds the start-live form.
pub fn build_start_live_params(csrf: &Vec<u8>, room_id: i64, area_id: i64) -> (r: Vec<
    (Vec<u8>, Vec<u8>),
>)
    ensures
        view_pairs(r@) == spec_start_live_params(csrf@, room_id as int, area_id as int),
{
    let mut r: Vec<(Vec<u8>, Vec<u8>)> = Vec::new();
    r.push(("area_v2".as_bytes_vec(), i64_to_dec(area_id)));
    r.push(("csrf".as_bytes_vec(), copy_bytes(csrf)));
    r.push(("platform".as_bytes_vec(), "pc_link".as_bytes_vec()));
    r.push(("room_id".as_bytes_vec(), i64_to_dec(room_id)));
    proof {
        assert(view_pairs(r@) =~= spec_start_live_params(csrf@, room_id as int, area_id as int));
    }
    r
}

/// Reads the start-live answer: a zero status yields the ingest address
/// and stream code, absent fields reading as empty.
pub fn decide_start_live(
    code: Option<i64>,
    message: Option<String>,
    addr: Option<String>,
    stream_code: Option<String>,
) -> (r: Result<(String, String), CoreError>)
    ensures
        r is Ok <==> spec_i64_or(code, -1i64) == 0,
        r matches Ok(p) ==> p.0@ == spec_str_or_empty(addr) && p.1@ == spec_str_or_empty(
            stream_code,
        ),
        r matches Err(e) ==> e is Auth && e.spec_message() == spec_str_or_empty(message),
{
    if i64_or(code, -1) != 0 {
        return Err(CoreError::Auth { message: str_or_empty(message) });
    }
    Ok((str_or_empty(addr), str_or_empty(stream_code)))
}

/// The form of the stop-live call, keys in the order it is sent.
pub open spec fn spec_stop_live_params(csrf: Seq<u8>, room_id: int) -> Seq<(Seq<u8>, Seq<u8>)> {
    seq![
        (encode_utf8("csrf"@), csrf),
        (encode_utf8("platform"@), encode_utf8("pc_link"@)),
        (encode_utf8("room_id"@), spec_dec_int(room_id)),
    ]
}

/// Builds the stop-live form.
pub fn build_stop_live_params(csrf: &Vec<u8>, room_id: i64) -> (r: Vec<(Vec<u8>, Vec<u8>)>)
    ensures
        view_pairs(r@) == spec_stop_live_params(csrf@, room_id as int),
{
    let mut r: Vec<(Vec<u8>, Vec<u8>)> = Vec::new();
    r.push(("csrf".as_bytes_vec(), copy_bytes(csrf)));
    r.push(("platform".as_bytes_vec(), "pc_link".as_bytes_vec()));
    r.push(("room_id".as_bytes_vec(), i64_to_dec(room_id)));
    proof {
        assert(view_pairs(r@) =~= spec_stop_live_params(csrf@, room_id as int));
    }
    r
}

/// Reads the stop-live answer: success exactly on a zero status.
pub fn decide_stop_live(code: Option<i64>, message: Option<String>) -> (r: Result<(), CoreError>)
    ensures
        r is Ok <==> spec_i64_or(code, -1i64) == 0,
        r matches Err(e) ==> e is Auth && e.spec_message() == spec_str_or_empty(message),
{
    if i64_or(code, -1) != 0 {
        return Err(CoreError::Auth { message: str_or_empty(message) });
    }
    Ok(())
}

/// Reads the navigation answer into the user's profile: a non-zero
/// status fails with the platform's message, a session that is not
/// logged in or carries no user id fails with a fixed message. The
/// live-room record starts empty; a later lookup may fill it.
pub fn decide_nav_user(
    code: Option<i64>,
    message: Option<String>,
    is_login: Option<bool>,
    mid: Option<u64>,
    name: Option<String>,
    face: Option<String>,
) -> (r: Result<UserInfo, CoreError>)
    ensures
        r is Ok <==> (spec_i64_or(code, -1i64) == 0 && spec_bool_or(is_login, false) && (
        mid matches Some(m) && m != 0)),
        r matches Ok(u) ==> {
            &&& mid matches Some(m) && u.mid == m
            &&& u.name@ == spec_str_or_empty(name)
            &&& u.face@ == spec_str_or_empty(face)
            &&& u.live_room.room_id == 0 && u.live_room.room_status == 0
                && u.live_room.live_status == 0
        },
        r matches Err(e) ==> e is Auth,
        spec_i64_or(code, -1i64) != 0 ==> (r matches Err(e) ==> e.spec_message()
            == spec_str_or_empty(message)),
        (spec_i64_or(code, -1i64) == 0 && !spec_bool_or(is_login, false)) ==> (r
            matches Err(e) ==> e.spec_message() == "the session is not logged in"@),
        (spec_i64_or(code, -1i64) == 0 && spec_bool_or(is_login, false) && !(mid matches Some(m)
            && m != 0)) ==> (r matches Err(e) ==> e.spec_message() == "no usable user id"@),
{
    if i64_or(code, -1) != 0 {
        return Err(CoreError::Auth { message: str_or_empty(message) });
    }
    if !bool_or(is_login, false) {
        return Err(
            CoreError::Auth { message: String::from_str("the session is not logged in") },
        );
    }
    let m = match mid {
        Some(m) => m,
        None => {
            return Err(
                CoreError::Auth { message: String::from_str("no usable user id") },
            );
        },
    };
    if m == 0 {
        return Err(CoreError::Auth { message: String::from_str("no usable user id") });
    }
    Ok(
        UserInfo {
            mid: m,
            name: str_or_empty(name),
            face: str_or_empty(face),
            live_room: LiveRoomBrief {
                room_status: 0,
                live_status: 0,
                title: String::new(),
                cover: String::new(),
                room_id: 0,
            },
        },
    )
}

/// Reads the space answer into the live-room record: present exactly
/// when the lookup succeeded and carried one, absent fields reading as
/// empty or zero.
pub fn decide_live_room(
    code: Option<i64>,
    present: bool,
    room_status: Option<i64>,
    live_status: Option<i64>,
    title: Option<String>,
    cover: Option<String>,
    room_id: Option<i64>,
) -> (r: Option<LiveRoomBrief>)
    ensures
        r is Some <==> (spec_i64_or(code, -1i64) == 0 && present),
        r matches Some(b) ==> {
            &&& b.room_status == spec_i32_lenient(spec_i64_or(room_status, 0i64))
            &&& b.live_status == spec_i32_lenient(spec_i64_or(live_status, 0i64))
            &&& b.title@ == spec_str_or_empty(title)
            &&& b.cover@ == spec_str_or_empty(cover)
            &&& b.room_id == spec_i64_or(room_id, 0i64)
        },
{
    if i64_or(code, -1) != 0 || !present {
        return None;
    }
    Some(
        LiveRoomBrief {
            room_status: i32_lenient(i64_or(room_status, 0)),
            live_status: i32_lenient(i64_or(live_status, 0)),
            title: str_or_empty(title),
            cover: str_or_empty(cover),
            room_id: i64_or(room_id, 0),
        },
    )
}

/// Reads the area-list answer's status: success exactly on zero.
pub fn decide_area_list(code: Option<i64>, message: Option<String>) -> (r: Result<(), CoreError>)
    ensures
        r is Ok <==> spec_i64_or(code, -1i64) == 0,
        r matches Err(e) ==> e is Auth && e.spec_message() == spec_str_or_empty(message),
{
    if i64_or(code, -1) != 0 {
        return Err(CoreError::Auth { message: str_or_empty(message) });
    }
    Ok(())
}

/// Builds one leaf area from its record: the id arrives as a decimal
/// string and an unreadable one reads as zero.
pub fn area_child_of(id_text: Option<String>, name: Option<String>) -> (r: AreaChild)
    ensures
        r.id == (match spec_parse_dec_i64(
            match id_text {
                Some(t) => encode_utf8(t@),
                None => encode_utf8("0"@),
            },
        ) {
            Some(v) => v,
            None => 0i64,
        }),
        r.name@ == spec_str_or_empty(name),
{
    let id_str = match id_text {
        Some(t) => t,
        None => String::from_str("0"),
    };
    let bytes = id_str.as_str().as_bytes_vec();
    let id = match dec_to_i64(&bytes) {
        Some(v) => v,
        None => 0,
    };
    AreaChild { id, name: str_or_empty(name) }
}

/// Builds one top-level area from its record and children.
pub fn area_parent_of(id: Option<i64>, name: Option<String>, children: Vec<AreaChild>) -> (r:
    AreaParent)
    ensures
        r.id == spec_i64_or(id, 0i64),
        r.name@ == spec_str_or_empty(name),
        r.children == children,
{
    AreaParent { id: i64_or(id, 0), name: str_or_empty(name), children }
}

} // verus!

//! The lenient read of platform responses: a missing or wrongly typed
//! field never fails a call, it reads as an explicit default. Only
//! non-zero status codes are hard failures, and those are decided by
//! the callers of these helpers.

use vstd::prelude::*;

verus! {

/// The view of an optional string, empty when absent.
pub open spec fn spec_str_or_empty(o: Option<String>) -> Seq<char> {
    match o {
        Option::Some(s) => s@,
        Option::None => Seq::<char>::empty(),
    }
}

/// The value of an optional integer under a default.
pub open spec fn spec_i64_or(o: Option<i64>, d: i64) -> i64 {
    match o {
        Option::Some(v) => v,
        Option::None => d,
    }
}

/// The value of an optional flag under a default.
pub open spec fn spec_bool_or(o: Option<bool>, d: bool) -> bool {
    match o {
        Option::Some(v) => v,
        Option::None => d,
    }
}

/// Reads an optional string, empty when absent.
pub fn str_or_empty(o: Option<String>) -> (r: String)
    ensures
        r@ == spec_str_or_empty(o),
{
    match o {
        Option::Some(s) => s,
        Option::None => String::new(),
    }
}

/// Reads an optional integer under a default.
pub fn i64_or(o: Option<i64>, d: i64) -> (r: i64)
    ensures
        r == spec_i64_or(o, d),
{
    match o {
        Option::Some(v) => v,
        Option::None => d,
    }
}

/// Reads an optional flag under a default.
pub fn bool_or(o: Option<bool>, d: bool) -> (r: bool)
    ensures
        r == spec_bool_or(o, d),
{
    match o {
        Option::Some(v) => v,
        Option::None => d,
    }
}

} // verus!

//! Interpreting a typed answer to a yes/no prompt.

use crate::text::{chars_of, spec_trim, trim_chars};
use vstd::prelude::*;

verus! {

broadcast use vstd::string::group_string_axioms;

/// What a trimmed answer means: `y`/`yes` in any ASCII case is true,
/// `n`/`no` in any ASCII case is false, anything else falls back to the
/// given default.
pub open spec fn spec_user_bool(t: Seq<char>, no_match_default: bool) -> bool {
    if t.len() == 1 {
        if t[0] == 'y' || t[0] == 'Y' {
            true
        } else if t[0] == 'n' || t[0] == 'N' {
            false
        } else {
            no_match_default
        }
    } else if t.len() == 2 {
        if (t[0] == 'n' || t[0] == 'N') && (t[1] == 'o' || t[1] == 'O') {
            false
        } else {
            no_match_default
        }
    } else if t.len() == 3 {
        if (t[0] == 'y' || t[0] == 'Y') && (t[1] == 'e' || t[1] == 'E') && (t[2] == 's' || t[2]
            == 'S') {
            true
        } else {
            no_match_default
        }
    } else {
        no_match_default
    }
}

/// Interprets a user input string as a boolean value: `y`/`yes` mean true
/// and `n`/`no` mean false, ignoring ASCII case and surrounding white
/// space; anything else maps to `no_match_default`.
pub fn user_str_into_bool(user_input: &str, no_match_default: bool) -> (r: bool)
    ensures
        r == spec_user_bool(spec_trim(user_input@), no_match_default),
{
    let cs = chars_of(user_input);
    let t = trim_chars(&cs);
    if t.len() == 1 {
        let c0 = t[0];
        if c0 == 'y' || c0 == 'Y' {
            true
        } else if c0 == 'n' || c0 == 'N' {
            false
        } else {
            no_match_default
        }
    } else if t.len() == 2 {
        let c0 = t[0];
        let c1 = t[1];
        if (c0 == 'n' || c0 == 'N') && (c1 == 'o' || c1 == 'O') {
            false
        } else {
            no_match_default
        }
    } else if t.len() == 3 {
        let c0 = t[0];
        let c1 = t[1];
        let c2 = t[2];
        if (c0 == 'y' || c0 == 'Y') && (c1 == 'e' || c1 == 'E') && (c2 == 's' || c2 == 'S') {
            true
        } else {
            no_match_default
        }
    } else {
        no_match_default
    }
}

} // verus!

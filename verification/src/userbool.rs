//! A boolean parsed from free-form user text.

use crate::text::chars_of;
use vstd::prelude::*;
use vstd::string::StringExecFns;

verus! {

broadcast use vstd::string::group_string_axioms;

/// A yes/no answer given by the user.
#[derive(Debug)]
pub struct UserBool {
    pub value: bool,
}

impl From<bool> for UserBool {
    fn from(value: bool) -> (r: UserBool) {
        UserBool { value }
    }
}

impl vstd::std_specs::convert::FromSpecImpl<bool> for UserBool {
    open spec fn obeys_from_spec() -> bool {
        true
    }

    open spec fn from_spec(value: bool) -> UserBool {
        UserBool { value }
    }
}

impl From<UserBool> for bool {
    fn from(val: UserBool) -> (r: bool) {
        val.value
    }
}

impl vstd::std_specs::convert::FromSpecImpl<UserBool> for bool {
    open spec fn obeys_from_spec() -> bool {
        true
    }

    open spec fn from_spec(val: UserBool) -> bool {
        val.value
    }
}

/// Case-insensitive (ASCII) equality of a text with one of the accepted
/// answer words.
pub open spec fn spec_ci_is(t: Seq<char>, w: Seq<char>) -> bool {
    t.len() == w.len() && forall|i: int|
        0 <= i < t.len() ==> (#[trigger] t[i] == w[i] || t[i] == upper_of(w[i]))
}

/// The ASCII upper-case counterpart of a lower-case letter.
pub open spec fn upper_of(c: char) -> char {
    if c == 'n' {
        'N'
    } else if c == 'o' {
        'O'
    } else if c == 'f' {
        'F'
    } else if c == 'a' {
        'A'
    } else if c == 'l' {
        'L'
    } else if c == 's' {
        'S'
    } else if c == 'e' {
        'E'
    } else if c == 'y' {
        'Y'
    } else if c == 't' {
        'T'
    } else if c == 'r' {
        'R'
    } else if c == 'u' {
        'U'
    } else {
        c
    }
}

/// Checks a text against an accepted answer word, ignoring ASCII case.
fn ci_is(t: &Vec<char>, w: &Vec<char>) -> (r: bool)
    ensures
        r == spec_ci_is(t@, w@),
{
    if t.len() != w.len() {
        return false;
    }
    let n = t.len();
    let mut i: usize = 0;
    while i < n
        invariant
            n == t@.len() == w@.len(),
            0 <= i <= n,
            forall|j: int| 0 <= j < i ==> (#[trigger] t@[j] == w@[j] || t@[j] == upper_of(w@[j])),
        decreases n - i,
    {
        let a = t[i];
        let b = w[i];
        let bu = if b == 'n' {
            'N'
        } else if b == 'o' {
            'O'
        } else if b == 'f' {
            'F'
        } else if b == 'a' {
            'A'
        } else if b == 'l' {
            'L'
        } else if b == 's' {
            'S'
        } else if b == 'e' {
            'E'
        } else if b == 'y' {
            'Y'
        } else if b == 't' {
            'T'
        } else if b == 'r' {
            'R'
        } else if b == 'u' {
            'U'
        } else {
            b
        };
        if a != b && a != bu {
            return false;
        }
        i += 1;
    }
    true
}

impl core::str::FromStr for UserBool {
    type Err = String;

    /// `n`, `no` and `false` parse as false; `y`, `yes` and `true` parse as
    /// true; case is ignored; anything else is rejected with a message.
    fn from_str(s: &str) -> (r: Result<UserBool, String>) {
        let t = chars_of(s);
        let no1 = chars_of("n");
        let no2 = chars_of("no");
        let no3 = chars_of("false");
        let yes1 = chars_of("y");
        let yes2 = chars_of("yes");
        let yes3 = chars_of("true");
        if ci_is(&t, &no1) || ci_is(&t, &no2) || ci_is(&t, &no3) {
            Ok(UserBool { value: false })
        } else if ci_is(&t, &yes1) || ci_is(&t, &yes2) || ci_is(&t, &yes3) {
            Ok(UserBool { value: true })
        } else {
            let mut msg = String::new();
            msg.append("Cannot understand ");
            msg.append(s);
            Err(msg)
        }
    }
}

} // verus!

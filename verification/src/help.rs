//! Help-bar labels: a key binding and its description become one box for
//! the line distributor.

use crate::layout::VisualBox;
use crate::text::chars_of;
use vstd::prelude::*;
use vstd::string::StringExecFns;

verus! {

broadcast use vstd::string::group_string_axioms;

/// Builds the label `[button] help` and the box it occupies: one cell per
/// character, one line tall.
pub fn make_help_box(button: &str, help: &str) -> (r: (String, VisualBox))
    ensures
        r.0@ == "["@ + button@ + "] "@ + help@,
        r.1.height == 1,
        r.1.width == r.0@.len() as u16,
{
    let mut text = String::new();
    text.append("[");
    text.append(button);
    text.append("] ");
    text.append(help);
    let width_chars = chars_of(text.as_str());
    #[verifier::truncate]
    let width = width_chars.len() as u16;
    let vb = VisualBox::new(width, 1);
    proof {
        assert(text@ =~= "["@ + button@ + "] "@ + help@);
    }
    (text, vb)
}

} // verus!

//! A rotating progress glyph shown while files are copied.

use vstd::prelude::*;

verus! {

/// Number of glyphs in the rotation.
pub open spec fn spinner_len() -> int {
    12
}

/// The glyph displayed at a given step of the rotation.
pub open spec fn spinner_glyph(idx: int) -> Seq<char> {
    if idx == 0 {
        "\u{2809}"@
    } else if idx == 1 {
        "\u{280b}"@
    } else if idx == 2 {
        "\u{280d}"@
    } else if idx == 3 {
        "\u{280e}"@
    } else if idx == 4 {
        "\u{2845}"@
    } else if idx == 5 {
        "\u{2847}"@
    } else if idx == 6 {
        "\u{2846}"@
    } else if idx == 7 {
        "\u{28c4}"@
    } else if idx == 8 {
        "\u{28e0}"@
    } else if idx == 9 {
        "\u{28c8}"@
    } else if idx == 10 {
        "\u{28d8}"@
    } else {
        "\u{28b1}"@
    }
}

/// Cycles through a fixed sequence of spinner glyphs, one per tick.
pub struct Spinner {
    idx: usize,
}

impl Spinner {
    /// The current position in the rotation.
    pub closed spec fn position(&self) -> int {
        self.idx as int
    }

    /// Whether the position is within the rotation.
    pub open spec fn wf(&self) -> bool {
        0 <= self.position() < spinner_len()
    }

    pub fn new() -> (r: Self)
        ensures
            r.wf(),
            r.position() == 0,
    {
        Spinner { idx: 0 }
    }

    /// Advances the rotation by one step and returns the glyph to display.
    pub fn tick(&mut self) -> (r: &'static str)
        requires
            old(self).wf(),
        ensures
            final(self).wf(),
            final(self).position() == (old(self).position() + 1) % spinner_len(),
            r@ == spinner_glyph(final(self).position()),
    {
        self.idx = (self.idx + 1) % 12;
        if self.idx == 0 {
            "\u{2809}"
        } else if self.idx == 1 {
            "\u{280b}"
        } else if self.idx == 2 {
            "\u{280d}"
        } else if self.idx == 3 {
            "\u{280e}"
        } else if self.idx == 4 {
            "\u{2845}"
        } else if self.idx == 5 {
            "\u{2847}"
        } else if self.idx == 6 {
            "\u{2846}"
        } else if self.idx == 7 {
            "\u{28c4}"
        } else if self.idx == 8 {
            "\u{28e0}"
        } else if self.idx == 9 {
            "\u{28c8}"
        } else if self.idx == 10 {
            "\u{28d8}"
        } else {
            "\u{28b1}"
        }
    }
}

} // verus!

//! A single-line input field with a caret and a sliding viewport.
//!
//! The buffer always ends in one extra space, so the caret can stand past
//! the last typed character; the extra space is stripped when the input is
//! consumed.

use crate::text::{chars_of, chars_to_string};
use vstd::prelude::*;

verus! {

broadcast use vstd::string::group_string_axioms;

/// A single-line input field. It does not translate user input to actions;
/// it provides the actions themselves.
pub struct InputField {
    /// The typed characters, followed by one extra space.
    pub buffer: Vec<char>,
    /// Caret position; the caret stands before `buffer[caret]`.
    pub caret: usize,
    /// First buffer position shown by the viewport.
    pub buffer_start: usize,
}

impl InputField {
    /// The buffer is never empty (it ends in the extra space) and the caret
    /// stays on it.
    pub open spec fn wf(&self) -> bool {
        &&& self.buffer@.len() >= 1
        &&& self.caret < self.buffer@.len()
    }

    /// An empty field: just the extra space, caret at the start.
    pub fn new() -> (r: InputField)
        ensures
            r.wf(),
            r.buffer@ == seq![' '],
            r.caret == 0,
            r.buffer_start == 0,
    {
        let mut buffer: Vec<char> = Vec::new();
        buffer.push(' ');
        proof {
            assert(buffer@ =~= seq![' ']);
        }
        InputField { buffer, caret: 0, buffer_start: 0 }
    }

    /// A field holding `content`, caret at the start.
    pub fn new_with_content(content: String) -> (r: InputField)
        ensures
            r.wf(),
            r.buffer@ == content@ + seq![' '],
            r.caret == 0,
            r.buffer_start == 0,
    {
        let mut buffer = chars_of(content.as_str());
        buffer.push(' ');
        proof {
            assert(buffer@ =~= content@ + seq![' ']);
        }
        InputField { buffer, caret: 0, buffer_start: 0 }
    }

    /// Inserts a character at the caret and moves the caret past it.
    pub fn add_char(&mut self, c: char)
        requires
            old(self).wf(),
        ensures
            final(self).wf(),
            final(self).buffer@ == old(self).buffer@.insert(old(self).caret as int, c),
            final(self).caret == old(self).caret + 1,
            final(self).buffer_start == old(self).buffer_start,
    {
        let l = self.buffer.len();
        assert(self.caret < l);
        self.buffer.insert(self.caret, c);
        self.caret = self.caret + 1;
    }

    /// Removes the character before the caret, if any, and moves the caret
    /// back onto the gap.
    pub fn backspace_char(&mut self)
        requires
            old(self).wf(),
        ensures
            final(self).wf(),
            old(self).caret == 0 ==> *final(self) == *old(self),
            old(self).caret > 0 ==> final(self).buffer@ == old(self).buffer@.remove(
                old(self).caret - 1,
            ) && final(self).caret == old(self).caret - 1 && final(self).buffer_start == old(
                self,
            ).buffer_start,
    {
        if self.caret == 0 {
            return ;
        }
        self.buffer.remove(self.caret - 1);
        self.caret = self.caret - 1;
    }

    /// Removes the character under the caret, unless the caret stands on the
    /// final extra space.
    pub fn delete_char(&mut self)
        requires
            old(self).wf(),
        ensures
            final(self).wf(),
            old(self).caret == old(self).buffer@.len() - 1 ==> *final(self) == *old(self),
            old(self).caret < old(self).buffer@.len() - 1 ==> final(self).buffer@ == old(
                self,
            ).buffer@.remove(old(self).caret as int) && final(self).caret == old(self).caret
                && final(self).buffer_start == old(self).buffer_start,
    {
        if self.caret == self.buffer.len() - 1 {
            return ;
        }
        self.buffer.remove(self.caret);
    }

    /// Moves the caret one position left, saturating at the start.
    pub fn caret_move_left(&mut self)
        requires
            old(self).wf(),
        ensures
            final(self).wf(),
            *final(self) == (InputField {
                caret: if old(self).caret == 0 {
                    0
                } else {
                    (old(self).caret - 1) as usize
                },
                ..*old(self)
            }),
    {
        if self.caret > 0 {
            self.caret = self.caret - 1;
        }
    }

    /// Moves the caret one position right, saturating at the extra space.
    pub fn caret_move_right(&mut self)
        requires
            old(self).wf(),
        ensures
            final(self).wf(),
            *final(self) == (InputField {
                caret: if old(self).caret + 1 < old(self).buffer@.len() {
                    (old(self).caret + 1) as usize
                } else {
                    old(self).caret
                },
                ..*old(self)
            }),
    {
        let l = self.buffer.len();
        if self.caret < l && self.caret + 1 < l {
            self.caret = self.caret + 1;
        }
    }

    /// The slice of the buffer to show in a `width`-wide viewport, and the
    /// position within it that holds the caret. Slides the viewport so the
    /// caret is always shown.
    pub fn render(&mut self, width: u16) -> (r: (String, usize))
        requires
            old(self).wf(),
            width >= 1,
        ensures
            final(self).wf(),
            final(self).buffer == old(self).buffer,
            final(self).caret == old(self).caret,
            final(self).buffer_start == (if old(self).caret <= old(self).buffer_start {
                old(self).caret as int
            } else if old(self).caret - old(self).buffer_start >= width {
                old(self).caret - width + 1
            } else {
                old(self).buffer_start as int
            }),
            final(self).buffer_start <= final(self).caret < final(self).buffer_start
                + width,
            r.0@ == final(self).buffer@.subrange(
                final(self).buffer_start as int,
                if final(self).buffer_start + width <= final(self).buffer@.len() {
                    final(self).buffer_start + width
                } else {
                    final(self).buffer@.len() as int
                },
            ),
            r.1 == final(self).caret - final(self).buffer_start,
            r.1 < r.0@.len(),
    {
        let l = self.buffer.len();
        assert(self.caret < l);
        if self.caret <= self.buffer_start {
            self.buffer_start = self.caret;
        } else if self.caret - self.buffer_start >= (width as usize) {
            self.buffer_start = self.caret - (width as usize) + 1;
        }
        let start = self.buffer_start;
        let end = if l - start <= (width as usize) {
            l
        } else {
            start + (width as usize)
        };
        let mut shown: Vec<char> = Vec::new();
        let mut i: usize = start;
        while i < end
            invariant
                start <= i <= end <= self.buffer@.len(),
                shown@ == self.buffer@.subrange(start as int, i as int),
            decreases end - i,
        {
            shown.push(self.buffer[i]);
            proof {
                assert(shown@ =~= self.buffer@.subrange(start as int, i + 1));
            }
            i += 1;
        }
        let s = chars_to_string(&shown);
        let highlighted = self.caret - start;
        (s, highlighted)
    }

    /// The text typed so far, without the final extra space.
    pub fn consume_input(&self) -> (r: String)
        requires
            self.wf(),
        ensures
            r@ == self.buffer@.take(self.buffer@.len() - 1),
    {
        let end = self.buffer.len() - 1;
        let mut taken: Vec<char> = Vec::new();
        let mut i: usize = 0;
        while i < end
            invariant
                0 <= i <= end < self.buffer@.len(),
                taken@ == self.buffer@.take(i as int),
            decreases end - i,
        {
            taken.push(self.buffer[i]);
            proof {
                assert(taken@ =~= self.buffer@.take(i + 1));
            }
            i += 1;
        }
        chars_to_string(&taken)
    }
}

} // verus!

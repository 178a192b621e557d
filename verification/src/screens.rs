//! The state machines behind the interactive screens.
//!
//! A screen is a unit of UI state conforming to the event loop's capability
//! contract: it may ask for periodic ticks, and it reacts to keys and
//! ticks. Drawing and event production (timers, resize polling, the
//! blocking key reader) are the surrounding application's business; the
//! screens here only decide.

use crate::input::InputField;
use crate::tree::{
    exclude_pattern_rel, glob_accepts, toggle_exclude_rel, toggle_opens_indexed, toggle_rel,
    FileList, ListedEntry,
};
use vstd::prelude::*;

verus! {

broadcast use vstd::string::group_string_axioms;

/// What a screen asks of the event loop after handling an event.
pub enum UiStateReaction {
    Exit,
}

/// Timing configuration of the event loop's producers.
pub struct UiConfig {
    /// Milliseconds between samples of the terminal size.
    pub tick_rate_ms: u64,
}

impl Default for UiConfig {
    fn default() -> (r: UiConfig)
        ensures
            r.tick_rate_ms == 200,
    {
        UiConfig { tick_rate_ms: 200 }
    }
}

/// A key press, as the screens understand it.
pub enum Key {
    Up,
    Down,
    Left,
    Right,
    Backspace,
    Delete,
    Char(char),
    Ctrl(char),
    Other,
}

/// An event delivered to the active screen by the event loop: a scheduled
/// or ad hoc redraw signal, or a key press.
pub enum FsmEvent {
    Tick,
    Key(Key),
}

/// The capability set of a screen: whether it wants periodic ticks (in
/// milliseconds), and how it reacts to keys and ticks. Events are
/// dispatched strictly one at a time, so a screen's state never sees two
/// overlapping steps.
pub trait UiState: Sized {
    /// The screen's own state machine invariant, held across every step.
    spec fn inv(&self) -> bool;

    /// What one key event does to this screen: how the state after relates
    /// to the state before, and what reaction comes back.
    spec fn key_step(pre: Self, post: Self, key: Key, r: Option<UiStateReaction>) -> bool;

    /// What one tick event does to this screen.
    spec fn tick_step(pre: Self, post: Self, r: Option<UiStateReaction>) -> bool;

    fn require_ticking(&self) -> (r: Option<u64>);

    fn on_key(&mut self, key: Key) -> (r: Option<UiStateReaction>)
        requires
            old(self).inv(),
        ensures
            final(self).inv(),
            Self::key_step(*old(self), *final(self), key, r),
    ;

    fn on_tick(&mut self) -> (r: Option<UiStateReaction>)
        requires
            old(self).inv(),
        ensures
            final(self).inv(),
            Self::tick_step(*old(self), *final(self), r),
    ;
}

/// One step of the event loop's consumer: the event goes to the screen's
/// matching handler, whose step relation carries over.
pub fn dispatch_event<S: UiState>(state: &mut S, event: FsmEvent) -> (r: Option<UiStateReaction>)
    requires
        old(state).inv(),
    ensures
        final(state).inv(),
        event matches FsmEvent::Key(k) ==> S::key_step(*old(state), *final(state), k, r),
        event is Tick ==> S::tick_step(*old(state), *final(state), r),
{
    match event {
        FsmEvent::Tick => state.on_tick(),
        FsmEvent::Key(k) => state.on_key(k),
    }
}

/// What the file picker is showing: the list itself, a single-line pattern
/// prompt, or an error banner.
pub enum UiMode {
    List,
    Input(InputField),
    Error(String),
}

/// An exact duplicate of a directory listing.
pub fn clone_listing(entries: &Vec<ListedEntry>) -> (r: Vec<ListedEntry>)
    ensures
        r@.len() == entries@.len(),
        forall|i: int|
            0 <= i < entries@.len() ==> (#[trigger] r@[i]).name@ == entries@[i].name@
                && r@[i].is_dir == entries@[i].is_dir,
{
    let mut out: Vec<ListedEntry> = Vec::new();
    let n = entries.len();
    let mut i: usize = 0;
    while i < n
        invariant
            n == entries@.len(),
            0 <= i <= n,
            out@.len() == i,
            forall|j: int|
                0 <= j < i ==> (#[trigger] out@[j]).name@ == entries@[j].name@ && out@[j].is_dir
                    == entries@[j].is_dir,
        decreases n - i,
    {
        out.push(ListedEntry { name: entries[i].name.clone(), is_dir: entries[i].is_dir });
        i += 1;
    }
    out
}

/// The views of a listing: each entry's name and kind.
pub open spec fn listing_views(entries: Seq<ListedEntry>) -> Seq<(Seq<char>, bool)> {
    entries.map_values(|e: ListedEntry| (e.name@, e.is_dir))
}

/// What a freshly built file list looks like for a given base listing.
pub open spec fn fresh_list(entries: Seq<(Seq<char>, bool)>, r: FileList) -> bool {
    &&& r.wf()
    &&& r.nodes@.len() == entries.len()
    &&& forall|k: int|
        0 <= k < entries.len() ==> {
            let n = #[trigger] r.nodes@[k];
            &&& n.rel_path@ == entries[k].0
            &&& n.is_dir == entries[k].1
            &&& n.parent is None
            &&& n.last_sibling == (if k == 0 {
                Option::<usize>::None
            } else {
                Option::<usize>::Some((k - 1) as usize)
            })
            &&& n.next_sibling == (if k + 1 == entries.len() {
                Option::<usize>::None
            } else {
                Option::<usize>::Some((k + 1) as usize)
            })
            &&& n.open == false
            &&& n.depth == 0
            &&& n.children is None
        }
    &&& r.visible@.len() == entries.len()
    &&& forall|k: int| 0 <= k < entries.len() ==> #[trigger] r.visible@[k] == k
    &&& r.patterns@.len() == 0
    &&& r.explicit_exception@.len() == 0
    &&& r.explicit_exclude@.len() == 0
    &&& r.highlight == 0
    &&& r.root_count == entries.len()
}

/// How one key relates the picker states before and after, whatever is
/// showing.
pub open spec fn picker_step(
    pre: FilePickerUi,
    post: FilePickerUi,
    key: Key,
    r: Option<UiStateReaction>,
) -> bool {
    match pre.mode {
        UiMode::List => picker_list_step(pre, post, key, r),
        UiMode::Input(f) => picker_input_step(pre, f, post, key, r),
        UiMode::Error(_) => {
            &&& post.mode is List
            &&& r is None
            &&& post.file_list == pre.file_list
            &&& post.aborted == pre.aborted
            &&& post.base_entries == pre.base_entries
            &&& post.wants_listing == pre.wants_listing
        },
    }
}

/// The file picker screen: navigate the tree, toggle folders, toggle
/// inclusion, register exclusion patterns, or abort.
pub struct FilePickerUi {
    pub file_list: FileList,
    /// The base directory's listing, kept for resets.
    pub base_entries: Vec<ListedEntry>,
    pub mode: UiMode,
    /// Set when the user aborted instead of accepting the selection.
    pub aborted: bool,
    /// Set when a toggle had to be deferred until the caller supplies the
    /// directory listing; see `listing_request` and `supply_listing`.
    pub wants_listing: bool,
}

/// The fields of the picker that a key in list mode never touches.
pub open spec fn picker_same_core(pre: FilePickerUi, post: FilePickerUi) -> bool {
    &&& post.base_entries == pre.base_entries
    &&& post.aborted == pre.aborted
    &&& post.wants_listing == pre.wants_listing
    &&& post.mode == pre.mode
}

/// How one key in list mode relates the picker states before and after.
pub open spec fn picker_list_step(
    pre: FilePickerUi,
    post: FilePickerUi,
    key: Key,
    r: Option<UiStateReaction>,
) -> bool {
    if key == Key::Ctrl('c') {
        &&& post == (FilePickerUi { aborted: true, ..pre })
        &&& r == Some(UiStateReaction::Exit)
    } else if key == Key::Up || key == Key::Char('k') {
        &&& post == (FilePickerUi {
            file_list: FileList {
                highlight: if pre.file_list.highlight == 0 {
                    0
                } else {
                    (pre.file_list.highlight - 1) as usize
                },
                ..pre.file_list
            },
            ..pre
        })
        &&& r is None
    } else if key == Key::Down || key == Key::Char('j') {
        &&& post == (FilePickerUi {
            file_list: FileList {
                highlight: if pre.file_list.highlight + 1 < pre.file_list.visible@.len() {
                    (pre.file_list.highlight + 1) as usize
                } else {
                    pre.file_list.highlight
                },
                ..pre.file_list
            },
            ..pre
        })
        &&& r is None
    } else if key == Key::Char('o') {
        &&& if pre.file_list.needs_listing() {
            post == (FilePickerUi { wants_listing: true, ..pre })
        } else {
            &&& toggle_rel(pre.file_list, post.file_list)
            &&& picker_same_core(pre, post)
        }
        &&& r is None
    } else if key == Key::Char('x') {
        &&& if pre.file_list.visible@.len() > 0 {
            &&& toggle_exclude_rel(pre.file_list, post.file_list)
            &&& picker_same_core(pre, post)
        } else {
            post == pre
        }
        &&& r is None
    } else if key == Key::Char('r') {
        &&& fresh_list(listing_views(pre.base_entries@), post.file_list)
        &&& picker_same_core(pre, post)
        &&& r is None
    } else if key == Key::Char('z') {
        &&& post.mode matches UiMode::Input(f) && f.buffer@ == seq![' '] && f.caret == 0
            && f.buffer_start == 0
        &&& post.file_list == pre.file_list
        &&& post.base_entries == pre.base_entries
        &&& post.aborted == pre.aborted
        &&& post.wants_listing == pre.wants_listing
        &&& r is None
    } else if key == Key::Char('\n') || key == Key::Char('\r') {
        &&& post == pre
        &&& r == Some(UiStateReaction::Exit)
    } else {
        &&& post == pre
        &&& r is None
    }
}

/// How one key in input mode relates the picker states before and after.
pub open spec fn picker_input_step(
    pre: FilePickerUi,
    f: InputField,
    post: FilePickerUi,
    key: Key,
    r: Option<UiStateReaction>,
) -> bool {
    &&& r is None
    &&& post.base_entries == pre.base_entries
    &&& post.aborted == pre.aborted
    &&& post.wants_listing == pre.wants_listing
    &&& if key == Key::Ctrl('c') {
        &&& post.mode is List
        &&& post.file_list == pre.file_list
    } else if key == Key::Char('\n') || key == Key::Char('\r') {
        let pattern = f.buffer@.take(f.buffer@.len() - 1);
        if glob_accepts(pattern) {
            &&& post.mode is List
            &&& exclude_pattern_rel(pre.file_list, post.file_list, pattern)
        } else {
            &&& post.mode is Error
            &&& post.file_list == pre.file_list
        }
    } else if key == Key::Char('\t') {
        &&& post == pre
    } else {
        &&& post.file_list == pre.file_list
        &&& match key {
            Key::Char(c) => post.mode matches UiMode::Input(f2) && f2.buffer@ == f.buffer@.insert(
                f.caret as int,
                c,
            ) && f2.caret == f.caret + 1,
            Key::Backspace => post.mode matches UiMode::Input(f2) && (if f.caret == 0 {
                f2 == f
            } else {
                f2.buffer@ == f.buffer@.remove(f.caret - 1) && f2.caret == f.caret - 1
            }),
            Key::Delete => post.mode matches UiMode::Input(f2) && (if f.caret == f.buffer@.len()
                - 1 {
                f2 == f
            } else {
                f2.buffer@ == f.buffer@.remove(f.caret as int) && f2.caret == f.caret
            }),
            Key::Left => post.mode matches UiMode::Input(f2) && f2 == (InputField {
                caret: if f.caret == 0 {
                    0
                } else {
                    (f.caret - 1) as usize
                },
                ..f
            }),
            Key::Right => post.mode matches UiMode::Input(f2) && f2 == (InputField {
                caret: if f.caret + 1 < f.buffer@.len() {
                    (f.caret + 1) as usize
                } else {
                    f.caret
                },
                ..f
            }),
            _ => post == pre,
        }
    }
}

impl FilePickerUi {
    /// The picker's state machine invariant: the tree model is sound, and
    /// so is the prompt's input field when it is up.
    pub open spec fn wf(&self) -> bool {
        &&& self.file_list.wf()
        &&& (self.mode matches UiMode::Input(f) ==> f.wf())
    }

    /// A picker over the base directory's listing, in list mode.
    pub fn new(base_entries: Vec<ListedEntry>) -> (r: FilePickerUi)
        ensures
            r.wf(),
            fresh_list(listing_views(base_entries@), r.file_list),
            r.base_entries == base_entries,
            r.mode is List,
            !r.aborted,
            !r.wants_listing,
    {
        let copy = clone_listing(&base_entries);
        let file_list = FileList::new(copy);
        proof {
            assert(listing_views(base_entries@) =~= listing_views(base_entries@));
        }
        FilePickerUi {
            file_list,
            base_entries,
            mode: UiMode::List,
            aborted: false,
            wants_listing: false,
        }
    }

    /// The relative path of the directory whose listing a deferred toggle
    /// is waiting for, if any.
    pub fn listing_request(&self) -> (r: Option<String>)
        requires
            self.wf(),
        ensures
            r is Some <==> (self.wants_listing && self.file_list.needs_listing()),
            r matches Some(p) ==> p@
                == self.file_list.nodes@[self.file_list.cursor() as int].rel_path@,
    {
        if self.wants_listing {
            self.file_list.listing_needed()
        } else {
            None
        }
    }

    /// Completes a deferred toggle with the listing the caller read.
    pub fn supply_listing(&mut self, listing: Vec<ListedEntry>)
        requires
            old(self).wf(),
            old(self).wants_listing,
            old(self).file_list.needs_listing(),
            old(self).file_list.nodes@.len() + listing@.len() <= usize::MAX,
        ensures
            final(self).wf(),
            !final(self).wants_listing,
            toggle_opens_indexed(old(self).file_list, final(self).file_list, listing@),
            final(self).mode == old(self).mode,
            final(self).aborted == old(self).aborted,
            final(self).base_entries == old(self).base_entries,
    {
        self.file_list.toggle_folder(Some(listing));
        self.wants_listing = false;
    }

    /// Handles one key press, per the active mode.
    pub fn handle_key(&mut self, key: Key) -> (r: Option<UiStateReaction>)
        requires
            old(self).wf(),
        ensures
            final(self).wf(),
            picker_step(*old(self), *final(self), key, r),
    {
        let in_list = match &self.mode {
            UiMode::List => true,
            _ => false,
        };
        if in_list {
            match key {
                Key::Ctrl(c) => {
                    if c == 'c' {
                        self.aborted = true;
                        return Some(UiStateReaction::Exit);
                    }
                    None
                },
                Key::Up => {
                    self.file_list.go_up();
                    None
                },
                Key::Down => {
                    self.file_list.go_down();
                    None
                },
                Key::Char(c) => {
                    if c == 'k' {
                        self.file_list.go_up();
                    } else if c == 'j' {
                        self.file_list.go_down();
                    } else if c == 'o' {
                        if self.file_list.listing_needed().is_some() {
                            self.wants_listing = true;
                        } else {
                            self.file_list.toggle_folder(None);
                        }
                    } else if c == 'x' {
                        if self.file_list.len() > 0 {
                            self.file_list.toggle_exclude_file();
                        }
                    } else if c == 'r' {
                        let copy = clone_listing(&self.base_entries);
                        let fresh = FileList::new(copy);
                        self.file_list = fresh;
                    } else if c == 'z' {
                        self.mode = UiMode::Input(InputField::new());
                    } else if c == '\n' || c == '\r' {
                        return Some(UiStateReaction::Exit);
                    }
                    None
                },
                _ => None,
            }
        } else {
            let in_error = match &self.mode {
                UiMode::Error(_) => true,
                _ => false,
            };
            if in_error {
                self.mode = UiMode::List;
                return None;
            }
            let mut taken = UiMode::List;
            core::mem::swap(&mut self.mode, &mut taken);
            let mut field = match taken {
                UiMode::Input(f) => f,
                _ => InputField::new(),
            };
            match key {
                Key::Ctrl(c) => {
                    if c == 'c' {
                        self.mode = UiMode::List;
                        return None;
                    }
                    self.mode = UiMode::Input(field);
                    None
                },
                Key::Char(c) => {
                    if c == '\n' || c == '\r' {
                        let pattern = field.consume_input();
                        match self.file_list.exclude_pattern(pattern.as_str()) {
                            Ok(()) => {
                                self.mode = UiMode::List;
                            },
                            Err(e) => {
                                self.mode = UiMode::Error(e.message());
                            },
                        }
                    } else if c == '\t' {
                        self.mode = UiMode::Input(field);
                    } else {
                        field.add_char(c);
                        self.mode = UiMode::Input(field);
                    }
                    None
                },
                Key::Backspace => {
                    field.backspace_char();
                    self.mode = UiMode::Input(field);
                    None
                },
                Key::Delete => {
                    field.delete_char();
                    self.mode = UiMode::Input(field);
                    None
                },
                Key::Left => {
                    field.caret_move_left();
                    self.mode = UiMode::Input(field);
                    None
                },
                Key::Right => {
                    field.caret_move_right();
                    self.mode = UiMode::Input(field);
                    None
                },
                _ => {
                    self.mode = UiMode::Input(field);
                    None
                },
            }
        }
    }
}

impl UiState for FilePickerUi {
    open spec fn inv(&self) -> bool {
        self.wf()
    }

    open spec fn key_step(
        pre: FilePickerUi,
        post: FilePickerUi,
        key: Key,
        r: Option<UiStateReaction>,
    ) -> bool {
        picker_step(pre, post, key, r)
    }

    open spec fn tick_step(pre: FilePickerUi, post: FilePickerUi, r: Option<UiStateReaction>) -> bool {
        post == pre && r is None
    }

    fn require_ticking(&self) -> (r: Option<u64>) {
        None
    }

    fn on_key(&mut self, key: Key) -> (r: Option<UiStateReaction>) {
        self.handle_key(key)
    }

    fn on_tick(&mut self) -> (r: Option<UiStateReaction>) {
        None
    }
}

impl UiState for FileTreeUi {
    open spec fn inv(&self) -> bool {
        self.wf()
    }

    open spec fn key_step(
        pre: FileTreeUi,
        post: FileTreeUi,
        key: Key,
        r: Option<UiStateReaction>,
    ) -> bool {
        viewer_step(pre, post, key, r)
    }

    open spec fn tick_step(pre: FileTreeUi, post: FileTreeUi, r: Option<UiStateReaction>) -> bool {
        post == pre && r is None
    }

    fn require_ticking(&self) -> (r: Option<u64>) {
        None
    }

    fn on_key(&mut self, key: Key) -> (r: Option<UiStateReaction>) {
        self.handle_key(key)
    }

    fn on_tick(&mut self) -> (r: Option<UiStateReaction>) {
        None
    }
}

/// The read-only tree viewer screen: navigate and expand, then leave.
pub struct FileTreeUi {
    pub file_list: FileList,
    pub wants_listing: bool,
}

impl FileTreeUi {
    pub open spec fn wf(&self) -> bool {
        self.file_list.wf()
    }

    pub fn new(base_entries: Vec<ListedEntry>) -> (r: FileTreeUi)
        ensures
            r.wf(),
            fresh_list(listing_views(base_entries@), r.file_list),
            !r.wants_listing,
    {
        proof {
            assert(listing_views(base_entries@) =~= listing_views(base_entries@));
        }
        FileTreeUi { file_list: FileList::new(base_entries), wants_listing: false }
    }

    /// The relative path of the directory whose listing a deferred toggle
    /// is waiting for, if any.
    pub fn listing_request(&self) -> (r: Option<String>)
        requires
            self.wf(),
        ensures
            r is Some <==> (self.wants_listing && self.file_list.needs_listing()),
    {
        if self.wants_listing {
            self.file_list.listing_needed()
        } else {
            None
        }
    }

    /// Completes a deferred toggle with the listing the caller read.
    pub fn supply_listing(&mut self, listing: Vec<ListedEntry>)
        requires
            old(self).wf(),
            old(self).wants_listing,
            old(self).file_list.needs_listing(),
            old(self).file_list.nodes@.len() + listing@.len() <= usize::MAX,
        ensures
            final(self).wf(),
            !final(self).wants_listing,
            toggle_opens_indexed(old(self).file_list, final(self).file_list, listing@),
    {
        self.file_list.toggle_folder(Some(listing));
        self.wants_listing = false;
    }

    /// Handles one key press: cursor movement, folder toggling, or leaving.
    pub fn handle_key(&mut self, key: Key) -> (r: Option<UiStateReaction>)
        requires
            old(self).wf(),
        ensures
            final(self).wf(),
            viewer_step(*old(self), *final(self), key, r),
    {
        match key {
            Key::Up => {
                self.file_list.go_up();
                None
            },
            Key::Down => {
                self.file_list.go_down();
                None
            },
            Key::Char(c) => {
                if c == 'k' {
                    self.file_list.go_up();
                    None
                } else if c == 'j' {
                    self.file_list.go_down();
                    None
                } else if c == 'o' {
                    if self.file_list.listing_needed().is_some() {
                        self.wants_listing = true;
                    } else {
                        self.file_list.toggle_folder(None);
                    }
                    None
                } else if c == '\n' || c == '\r' || c == 'q' {
                    Some(UiStateReaction::Exit)
                } else {
                    None
                }
            },
            Key::Ctrl(c) => {
                if c == 'c' {
                    Some(UiStateReaction::Exit)
                } else {
                    None
                }
            },
            _ => None,
        }
    }
}

/// How one key relates the viewer states before and after.
pub open spec fn viewer_step(
    pre: FileTreeUi,
    post: FileTreeUi,
    key: Key,
    r: Option<UiStateReaction>,
) -> bool {
    if key == Key::Char('\n') || key == Key::Char('\r') || key == Key::Char('q') || key
        == Key::Ctrl('c') {
        &&& r == Some(UiStateReaction::Exit)
        &&& post == pre
    } else if key == Key::Up || key == Key::Char('k') {
        &&& post == (FileTreeUi {
            file_list: FileList {
                highlight: if pre.file_list.highlight == 0 {
                    0
                } else {
                    (pre.file_list.highlight - 1) as usize
                },
                ..pre.file_list
            },
            ..pre
        })
        &&& r is None
    } else if key == Key::Down || key == Key::Char('j') {
        &&& post == (FileTreeUi {
            file_list: FileList {
                highlight: if pre.file_list.highlight + 1 < pre.file_list.visible@.len() {
                    (pre.file_list.highlight + 1) as usize
                } else {
                    pre.file_list.highlight
                },
                ..pre.file_list
            },
            ..pre
        })
        &&& r is None
    } else if key == Key::Char('o') {
        &&& if pre.file_list.needs_listing() {
            post == (FileTreeUi { wants_listing: true, ..pre })
        } else {
            &&& toggle_rel(pre.file_list, post.file_list)
            &&& post.wants_listing == pre.wants_listing
        }
        &&& r is None
    } else {
        &&& post == pre
        &&& r is None
    }
}

/// A wrap-around navigable list of rendered entries.
pub struct List<T> {
    pub highlight: usize,
    pub buffer_start: usize,
    pub elements: Vec<T>,
}

impl<T> List<T> {
    pub open spec fn wf(&self) -> bool {
        self.elements@.len() > 0 ==> self.highlight < self.elements@.len()
    }

    pub fn new(elements: Vec<T>) -> (r: List<T>)
        ensures
            r.wf(),
            r.elements == elements,
            r.highlight == 0,
            r.buffer_start == 0,
    {
        List { highlight: 0, buffer_start: 0, elements }
    }

    pub fn len(&self) -> (r: usize)
        ensures
            r == self.elements@.len(),
    {
        self.elements.len()
    }

    /// Moves the highlight up one entry, wrapping to the bottom.
    pub fn go_up(&mut self)
        requires
            old(self).wf(),
        ensures
            final(self).wf(),
            final(self).elements == old(self).elements,
            final(self).buffer_start == old(self).buffer_start,
            final(self).highlight == (if old(self).highlight == 0 {
                if old(self).elements@.len() == 0 {
                    0int
                } else {
                    old(self).elements@.len() - 1
                }
            } else {
                old(self).highlight - 1
            }),
    {
        if self.highlight == 0 {
            let l = self.elements.len();
            self.highlight = if l == 0 {
                0
            } else {
                l - 1
            };
        } else {
            self.highlight = self.highlight - 1;
        }
    }

    /// Moves the highlight down one entry, wrapping to the top.
    pub fn go_down(&mut self)
        requires
            old(self).wf(),
        ensures
            final(self).wf(),
            final(self).elements == old(self).elements,
            final(self).buffer_start == old(self).buffer_start,
            final(self).highlight == (if old(self).elements@.len() == 0 || old(self).highlight
                == old(self).elements@.len() - 1 {
                0int
            } else {
                old(self).highlight + 1
            }),
    {
        let l = self.elements.len();
        if l == 0 || self.highlight == l - 1 {
            self.highlight = 0;
        } else {
            self.highlight = self.highlight + 1;
        }
    }

    /// Removes the entry at `index`, pulling the highlight back if it stood
    /// at or past it.
    pub fn remove_entry(&mut self, index: usize) -> (r: T)
        requires
            old(self).wf(),
            index < old(self).elements@.len(),
        ensures
            final(self).wf(),
            final(self).elements@ == old(self).elements@.remove(index as int),
            r == old(self).elements@[index as int],
            final(self).buffer_start == old(self).buffer_start,
            final(self).highlight == (if old(self).highlight + 1 >= old(self).elements@.len()
                && old(self).highlight > 0 {
                old(self).highlight - 1
            } else {
                old(self).highlight as int
            }),
    {
        let r = self.elements.remove(index);
        if self.highlight >= self.elements.len() && self.highlight > 0 {
            self.highlight = self.highlight - 1;
        }
        r
    }
}

} // verus!

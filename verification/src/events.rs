//! What keys do to the file tree.
use crate::entry::Listings;
use crate::file_tree::{depth_room, FileTree, TreeView};
use crate::key::{
    canonical, no_modifiers, only_control, Event, FileTreeKeys, FileTreeOpenBehavior, KeyCode,
    KeyEvent,
};
use crate::marks::{mark_toggled, range_marked};
use crate::navigate::{file_to_open, left_dir, moved_down, moved_up, opened_selected, scrolled};
use crate::path::PathBuf;
use vstd::prelude::*;

verus! {

/// What is left to do after an event, as a mathematical value.
pub enum EventResultView {
    Ignored,
    Consumed,
    OpenFile(Seq<char>),
    ConfirmDelete,
    CreatePrompt { is_dir: bool },
    Refresh,
}

/// What is left to do after an event.
#[derive(Debug)]
pub enum EventResult {
    /// The event is not for the tree.
    Ignored,
    /// Nothing is left to do.
    Consumed,
    /// The file is to be opened in the editor.
    OpenFile(PathBuf),
    /// The user is to be asked whether to delete what is selected.
    ConfirmDelete,
    /// The user is to be asked for the name of a new file or directory.
    CreatePrompt { is_dir: bool },
    /// The tree is to be read anew from disk.
    Refresh,
}

impl View for EventResult {
    type V = EventResultView;

    open spec fn view(&self) -> EventResultView {
        match self {
            EventResult::Ignored => EventResultView::Ignored,
            EventResult::Consumed => EventResultView::Consumed,
            EventResult::OpenFile(p) => EventResultView::OpenFile(p@),
            EventResult::ConfirmDelete => EventResultView::ConfirmDelete,
            EventResult::CreatePrompt { is_dir } => EventResultView::CreatePrompt { is_dir: *is_dir },
            EventResult::Refresh => EventResultView::Refresh,
        }
    }
}

/// What an event does while a filter is typed.
pub open spec fn filter_event(v: TreeView, event: Event) -> (TreeView, EventResultView) {
    match event {
        Event::Other => (v, EventResultView::Ignored),
        Event::Key(key) => match key.code {
            KeyCode::Esc => (
                TreeView { filter_mode: false, filter_query: Seq::empty(), ..v },
                EventResultView::Consumed,
            ),
            KeyCode::Enter => (TreeView { filter_mode: false, ..v }, EventResultView::Consumed),
            KeyCode::Char(c) => if key.modifiers == no_modifiers() {
                (TreeView { filter_query: v.filter_query.push(c), ..v }, EventResultView::Consumed)
            } else {
                (v, EventResultView::Ignored)
            },
            KeyCode::Backspace => (
                TreeView {
                    filter_query: if v.filter_query.len() > 0 {
                        v.filter_query.drop_last()
                    } else {
                        v.filter_query
                    },
                    ..v
                },
                EventResultView::Consumed,
            ),
            _ => (v, EventResultView::Ignored),
        },
    }
}

/// What opening the selected entry does: a directory is toggled, and after a
/// file the tree closes if it is set up to.
pub open spec fn open_event(
    v: TreeView,
    behavior: FileTreeOpenBehavior,
    disk: Listings,
) -> (TreeView, EventResultView) {
    let after = opened_selected(v, disk);
    match file_to_open(v) {
        Some(t) => (
            TreeView { closed: v.closed || behavior == FileTreeOpenBehavior::Auto, ..after },
            EventResultView::OpenFile(t),
        ),
        None => (after, EventResultView::Consumed),
    }
}

/// What a key does while no filter is typed.
pub open spec fn key_event(
    v: TreeView,
    key: KeyEvent,
    keys: FileTreeKeys,
    behavior: FileTreeOpenBehavior,
    disk: Listings,
) -> (TreeView, EventResultView) {
    if key.code == KeyCode::Esc && key.modifiers == no_modifiers() {
        if v.marked.len() > 0 {
            (TreeView { marked: Seq::empty(), anchor: None, ..v }, EventResultView::Consumed)
        } else {
            (
                TreeView { marked: Seq::empty(), anchor: None, closed: true, ..v },
                EventResultView::Consumed,
            )
        }
    } else if key.code == KeyCode::Char('c') && key.modifiers == only_control() {
        (TreeView { closed: true, ..v }, EventResultView::Consumed)
    } else if key == keys.quit {
        (TreeView { closed: true, ..v }, EventResultView::Consumed)
    } else if key == keys.move_down || key.code == KeyCode::Down {
        (scrolled(moved_down(v)), EventResultView::Consumed)
    } else if key == keys.move_up || key.code == KeyCode::Up {
        (scrolled(moved_up(v)), EventResultView::Consumed)
    } else if key == keys.open || key == keys.expand || key.code == KeyCode::Enter || key.code
        == KeyCode::Right {
        open_event(v, behavior, disk)
    } else if key == keys.collapse || key.code == KeyCode::Left {
        if v.selected < v.entries.len() && v.entries[v.selected as int].expanded {
            (opened_selected(v, disk), EventResultView::Consumed)
        } else {
            (v, EventResultView::Consumed)
        }
    } else if key == keys.parent {
        (left_dir(v), EventResultView::Consumed)
    } else if key == keys.select {
        (mark_toggled(v), EventResultView::Consumed)
    } else if key == keys.select_extend {
        (range_marked(v), EventResultView::Consumed)
    } else if key == keys.delete {
        (v, EventResultView::ConfirmDelete)
    } else if key == keys.create_file {
        (v, EventResultView::CreatePrompt { is_dir: false })
    } else if key == keys.create_dir {
        (v, EventResultView::CreatePrompt { is_dir: true })
    } else if key == keys.refresh {
        (v, EventResultView::Refresh)
    } else if key == keys.filter {
        (TreeView { filter_mode: true, filter_query: Seq::empty(), ..v }, EventResultView::Consumed)
    } else if key == keys.goto_top {
        (TreeView { selected: 0, scroll: 0, ..v }, EventResultView::Consumed)
    } else if key == keys.goto_bottom {
        if v.entries.len() > 0 {
            (
                scrolled(TreeView { selected: (v.entries.len() - 1) as nat, ..v }),
                EventResultView::Consumed,
            )
        } else {
            (v, EventResultView::Consumed)
        }
    } else {
        (v, EventResultView::Ignored)
    }
}

/// What an event does to the tree, and what is left to do.
pub open spec fn event_handled(
    v: TreeView,
    event: Event,
    keys: FileTreeKeys,
    behavior: FileTreeOpenBehavior,
    disk: Listings,
) -> (TreeView, EventResultView) {
    if v.filter_mode {
        filter_event(v, event)
    } else {
        match event {
            Event::Other => (v, EventResultView::Ignored),
            Event::Key(key) => key_event(v, canonical(key), keys, behavior, disk),
        }
    }
}

/// Whether the selection is on an entry, where there are entries.
pub open spec fn selection_valid(v: TreeView) -> bool {
    v.entries.len() > 0 ==> v.selected < v.entries.len()
}

/// Whether an event is the key that marks a range of entries.
pub open spec fn extends_marks(v: TreeView, event: Event, keys: FileTreeKeys) -> bool {
    !v.filter_mode && (event matches Event::Key(key) && canonical(key) == keys.select_extend)
}

impl FileTree {
    /// Handles an event: changes the tree, and says what is left to do.
    pub fn handle_event(
        &mut self,
        event: &Event,
        keys: &FileTreeKeys,
        open_behavior: FileTreeOpenBehavior,
        disk: &Listings,
    ) -> (r: EventResult)
        requires
            old(self).marked.wf(),
            extends_marks(old(self)@, *event, *keys) ==> selection_valid(old(self)@),
            depth_room(old(self)@.entries, 1),
        ensures
            (final(self)@, r@) == event_handled(
                old(self)@,
                *event,
                *keys,
                open_behavior,
                *disk,
            ),
            final(self).marked.wf(),
    {
        if self.filter_mode {
            return self.handle_filter_event(event);
        }
        match event {
            Event::Other => EventResult::Ignored,
            Event::Key(key) => {
                let key = key.canonical();
                self.handle_key(key, keys, open_behavior, disk)
            },
        }
    }

    fn handle_filter_event(&mut self, event: &Event) -> (r: EventResult)
        ensures
            (final(self)@, r@) == filter_event(old(self)@, *event),
            final(self).marked == old(self).marked,
    {
        match event {
            Event::Other => EventResult::Ignored,
            Event::Key(key) => match key.code {
                KeyCode::Esc => {
                    self.filter_mode = false;
                    self.filter_query = String::new();
                    EventResult::Consumed
                },
                KeyCode::Enter => {
                    self.filter_mode = false;
                    EventResult::Consumed
                },
                KeyCode::Char(c) => {
                    if key.modifiers.is_none() {
                        self.filter_query.push(c);
                        EventResult::Consumed
                    } else {
                        EventResult::Ignored
                    }
                },
                KeyCode::Backspace => {
                    let _ = self.filter_query.pop();
                    EventResult::Consumed
                },
                _ => EventResult::Ignored,
            },
        }
    }

    fn handle_key(
        &mut self,
        key: KeyEvent,
        keys: &FileTreeKeys,
        open_behavior: FileTreeOpenBehavior,
        disk: &Listings,
    ) -> (r: EventResult)
        requires
            old(self).marked.wf(),
            key == keys.select_extend ==> selection_valid(old(self)@),
            depth_room(old(self)@.entries, 1),
        ensures
            (final(self)@, r@) == key_event(old(self)@, key, *keys, open_behavior, *disk),
            final(self).marked.wf(),
    {
        assert(self@.entries.len() == self.entries@.len());
        // Bindings that work in addition to the configured ones.
        if key.code == KeyCode::Esc && key.modifiers.is_none() {
            // Escape first clears the current selection, then closes.
            if self.clear_marks() {
                return EventResult::Consumed;
            }
            self.closed = true;
            return EventResult::Consumed;
        }
        if key.code == KeyCode::Char('c') && key.modifiers.is_control() {
            self.closed = true;
            return EventResult::Consumed;
        }
        if key == keys.quit {
            self.closed = true;
        } else if key == keys.move_down || key.code == KeyCode::Down {
            self.move_down();
            self.update_scroll();
        } else if key == keys.move_up || key.code == KeyCode::Up {
            self.move_up();
            self.update_scroll();
        } else if key == keys.open || key == keys.expand || key.code == KeyCode::Enter || key.code
            == KeyCode::Right {
            if let Some(path) = self.open_selected(disk) {
                if open_behavior == FileTreeOpenBehavior::Auto {
                    self.closed = true;
                }
                return EventResult::OpenFile(path);
            }
        } else if key == keys.collapse || key.code == KeyCode::Left {
            // Collapse current directory if it is expanded.
            if self.selected < self.entries.len() && self.entries[self.selected].expanded {
                self.toggle_expand(self.selected, disk);
            }
        } else if key == keys.parent {
            self.go_to_parent();
        } else if key == keys.select {
            self.toggle_mark();
        } else if key == keys.select_extend {
            self.mark_range();
        } else if key == keys.delete {
            return EventResult::ConfirmDelete;
        } else if key == keys.create_file {
            return EventResult::CreatePrompt { is_dir: false };
        } else if key == keys.create_dir {
            return EventResult::CreatePrompt { is_dir: true };
        } else if key == keys.refresh {
            return EventResult::Refresh;
        } else if key == keys.filter {
            self.filter_mode = true;
            self.filter_query = String::new();
        } else if key == keys.goto_top {
            self.selected = 0;
            self.scroll = 0;
        } else if key == keys.goto_bottom {
            if self.entries.len() > 0 {
                self.selected = self.entries.len() - 1;
                self.update_scroll();
            }
        } else {
            return EventResult::Ignored;
        }
        EventResult::Consumed
    }

    /// The name that the tree is found by.
    pub fn id(&self) -> (r: Option<&'static str>)
        ensures
            r matches Some(s) && s@ == "file-tree"@,
    {
        Some("file-tree")
    }

    /// How the cursor is shown: as a block while a filter is typed, else not
    /// at all.
    pub fn cursor(&self) -> (r: CursorKind)
        ensures
            r == if self.filter_mode {
                CursorKind::Block
            } else {
                CursorKind::Hidden
            },
    {
        if self.filter_mode {
            CursorKind::Block
        } else {
            CursorKind::Hidden
        }
    }
}

/// How a cursor is shown.
#[derive(Debug, Clone, Copy, PartialEq, Eq, Structural)]
pub enum CursorKind {
    Block,
    Hidden,
}

/// While a filter is typed, Backspace takes back the last character.
pub proof fn law_backspace(v: TreeView, c: char)
    requires
        v.filter_mode,
    ensures
        ({
            let typed = Event::Key(
                KeyEvent { code: KeyCode::Char(c), modifiers: no_modifiers() },
            );
            let back = Event::Key(
                KeyEvent { code: KeyCode::Backspace, modifiers: no_modifiers() },
            );
            filter_event(filter_event(v, typed).0, back).0 == v
        }),
{
    assert(v.filter_query.push(c).drop_last() =~= v.filter_query);
}

/// Escape first clears the marks, and closes the tree only when there are
/// none.
pub proof fn law_escape(
    v: TreeView,
    keys: FileTreeKeys,
    behavior: FileTreeOpenBehavior,
    disk: Listings,
)
    requires
        !v.filter_mode,
    ensures
        ({
            let escape = Event::Key(
                KeyEvent { code: KeyCode::Esc, modifiers: no_modifiers() },
            );
            let once = event_handled(v, escape, keys, behavior, disk).0;
            let twice = event_handled(once, escape, keys, behavior, disk).0;
            &&& once.marked.len() == 0
            &&& v.marked.len() > 0 ==> once.closed == v.closed
            &&& v.marked.len() == 0 ==> once.closed
            &&& twice.closed
            &&& twice.entries == v.entries
        }),
{
}

} // verus!

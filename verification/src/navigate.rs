//! Loading the file tree, and moving around in it.
use crate::entry::{EntryView, GitStatus, GitStatusMap, Listings};
use crate::file_tree::{
    collapse_at, collapsed_at, depth_room, display_width, entry_at, expanded_paths,
    lemma_collapsed_at, lemma_entry_at, lemma_shown_depth, restored, shown_in, state_of,
    toggle_at, width_of, FileTree, TreeView,
};
use crate::path::{parent, parts, path_texts, Part, PathBuf};
use crate::path_set::{holds, lemma_filter_increasing, PathSet};
use vstd::prelude::*;

verus! {

// ── Loading ──────────────────────────────────────────────────────────────
/// How a file differs from what is committed.
#[derive(Debug, Clone, Copy, PartialEq, Eq, Structural)]
pub enum ChangeKind {
    Untracked,
    Modified,
    Conflict,
    Deleted,
    Renamed,
}

/// A file that differs from what is committed.
#[derive(Debug)]
pub struct FileChange {
    pub kind: ChangeKind,
    /// Where the file is, after the change.
    pub path: PathBuf,
}

/// The status that a change is shown as.
pub open spec fn status_for(kind: ChangeKind) -> GitStatus {
    match kind {
        ChangeKind::Untracked => GitStatus::Untracked,
        ChangeKind::Modified => GitStatus::Modified,
        ChangeKind::Conflict => GitStatus::Conflict,
        ChangeKind::Deleted => GitStatus::Deleted,
        ChangeKind::Renamed => GitStatus::Renamed,
    }
}

/// The number of reports before the first one that failed.
pub open spec fn before_failure(s: Seq<Option<FileChange>>) -> nat
    decreases s.len(),
{
    if s.len() > 0 && s[0] is Some {
        1 + before_failure(s.skip(1))
    } else {
        0
    }
}

/// The status of files after a list of reports.
pub open spec fn reported(s: Seq<Option<FileChange>>) -> Map<Seq<Part>, GitStatus>
    decreases s.len(),
{
    if s.len() == 0 {
        Map::empty()
    } else {
        match s.last() {
            Some(change) => reported(s.drop_last()).insert(
                parts(change.path@),
                status_for(change.kind),
            ),
            None => reported(s.drop_last()),
        }
    }
}

/// The status of files that reports give: those after a failed report are not
/// looked at.
pub open spec fn git_status_of(changes: Seq<Option<FileChange>>) -> Map<Seq<Part>, GitStatus> {
    reported(changes.take(before_failure(changes) as int))
}

/// `v` with the contents of `dir` in it: at the top for depth 0, else behind
/// the entry of `dir`, or at the end where there is none.
pub open spec fn loaded(v: TreeView, dir: Seq<char>, depth: nat, disk: Listings) -> TreeView {
    let k = entry_at(v.entries, dir);
    let at = if depth == 0 {
        0
    } else if k < v.entries.len() {
        k + 1
    } else {
        v.entries.len() as int
    };
    TreeView {
        entries: v.entries.take(at) + shown_in(dir, depth, v.git_status, disk) + v.entries.skip(at),
        ..v
    }
}

/// A tree that shows nothing yet.
pub open spec fn blank(root: Seq<char>) -> TreeView {
    TreeView {
        root,
        entries: Seq::empty(),
        selected: 0,
        scroll: 0,
        filter_mode: false,
        filter_query: Seq::empty(),
        show_git_status: true,
        git_status: Map::empty(),
        max_width_percent: 35,
        min_width: 25,
        cached_height: 20,
        closed: false,
        marked: Seq::empty(),
        anchor: None,
    }
}

/// A tree that shows the contents of `root`.
pub open spec fn opened(
    root: Seq<char>,
    disk: Listings,
    changes: Seq<Option<FileChange>>,
) -> TreeView {
    TreeView { git_status: git_status_of(changes), ..loaded(blank(root), root, 0, disk) }
}

/// Whether an entry has the path `t`.
pub open spec fn shows(s: Seq<EntryView>, t: Seq<char>) -> bool {
    exists|i: int| 0 <= i < s.len() && parts((#[trigger] s[i]).path) == parts(t)
}

/// `v` read anew from disk: the browsing position stays, and marks on entries
/// that are gone are dropped.
pub open spec fn refreshed(
    v: TreeView,
    disk: Listings,
    changes: Seq<Option<FileChange>>,
) -> TreeView {
    let empty = TreeView { entries: Seq::empty(), git_status: Map::empty(), ..v };
    let read = TreeView { git_status: git_status_of(changes), ..loaded(empty, v.root, 0, disk) };
    let back = restored(read, state_of(v), disk);
    TreeView {
        selected: if back.selected < back.entries.len() {
            back.selected
        } else if back.entries.len() == 0 {
            0
        } else {
            (back.entries.len() - 1) as nat
        },
        marked: back.marked.filter(|t: Seq<char>| shows(back.entries, t)),
        ..back
    }
}

/// A new tree has only entries on the first level.
pub proof fn lemma_opened_depth(
    root: Seq<char>,
    disk: Listings,
    changes: Seq<Option<FileChange>>,
    n: int,
)
    requires
        n < usize::MAX,
    ensures
        depth_room(opened(root, disk, changes).entries, n),
{
    lemma_shown_depth(root, 0, Map::empty(), disk);
    assert(opened(root, disk, changes).entries =~= shown_in(root, 0, Map::empty(), disk));
}

proof fn lemma_expanded_paths_len(s: Seq<EntryView>)
    ensures
        expanded_paths(s).len() <= s.len(),
    decreases s.len(),
{
    if s.len() > 0 {
        lemma_expanded_paths_len(s.drop_last());
    }
}

impl FileTree {
    /// A tree that shows the contents of `root`.
    pub fn new(root: PathBuf, disk: &Listings, changes: &Vec<Option<FileChange>>) -> (r: FileTree)
        ensures
            r@ == opened(root@, *disk, changes@),
            r.marked.wf(),
            depth_room(r@.entries, 1),
    {
        let dir = root.clone();
        let mut tree = FileTree {
            root,
            entries: Vec::new(),
            selected: 0,
            scroll: 0,
            filter_mode: false,
            filter_query: String::new(),
            show_git_status: true,
            git_status: GitStatusMap::new(),
            max_width_percent: 35,
            min_width: 25,
            cached_height: 20,
            closed: false,
            marked: PathSet::new(),
            anchor: None,
        };
        assert(tree@.entries =~= Seq::empty());
        tree.load_directory(&dir, 0, disk);
        tree.load_git_status(changes);
        proof {
            lemma_opened_depth(root@, *disk, changes@, 1);
        }
        tree
    }

    /// Load directory contents at the given path and depth
    pub fn load_directory(&mut self, path: &PathBuf, depth: usize, disk: &Listings)
        ensures
            final(self)@ == loaded(old(self)@, path@, depth as nat, *disk),
            final(self).marked == old(self).marked,
    {
        let len = self.entries.len();
        let at = if depth == 0 {
            0
        } else {
            match self.find_entry(path) {
                Some(i) => i + 1,
                None => len,
            }
        };
        assert(self@.entries.len() == len);
        self.load_directory_children(path, depth, at, disk);
    }

    /// Takes over the status of the files in the workspace, from what the
    /// version control reported; a report may have failed.
    pub fn load_git_status(&mut self, changes: &Vec<Option<FileChange>>)
        ensures
            final(self)@ == (TreeView { git_status: git_status_of(changes@), ..old(self)@ }),
            final(self).marked == old(self).marked,
    {
        let ghost s = changes@;
        let mut map = GitStatusMap::new();
        let mut i: usize = 0;
        assert(s.skip(0) =~= s);
        assert(reported(s.take(0)) =~= Map::empty());
        while i < changes.len()
            invariant_except_break
                s == changes@,
                i <= s.len(),
                before_failure(s) == i + before_failure(s.skip(i as int)),
                map@ == reported(s.take(i as int)),
            ensures
                s == changes@,
                i <= s.len(),
                before_failure(s) == i,
                map@ == reported(s.take(i as int)),
            decreases changes@.len() - i,
        {
            assert(s.skip(i as int)[0] == s[i as int]);
            match &changes[i] {
                None => {
                    break;
                },
                Some(change) => {
                    let status = match change.kind {
                        ChangeKind::Untracked => GitStatus::Untracked,
                        ChangeKind::Modified => GitStatus::Modified,
                        ChangeKind::Conflict => GitStatus::Conflict,
                        ChangeKind::Deleted => GitStatus::Deleted,
                        ChangeKind::Renamed => GitStatus::Renamed,
                    };
                    map.insert(change.path.clone(), status);
                    assert(s.take(i + 1).drop_last() =~= s.take(i as int));
                    assert(s.take(i + 1).last() == s[i as int]);
                    assert(s.skip(i as int).skip(1) =~= s.skip(i + 1));
                },
            }
            i += 1;
        }
        self.git_status = map;
    }

    /// Refresh the file tree, preserving the browsing position (expanded
    /// directories, selection and scroll). Marks pointing at entries that
    /// no longer exist are dropped.
    pub fn refresh(&mut self, disk: &Listings, changes: &Vec<Option<FileChange>>)
        requires
            old(self).marked.wf(),
            old(self).entries@.len() + 1 < usize::MAX,
        ensures
            final(self)@ == refreshed(old(self)@, *disk, changes@),
            final(self).marked.wf(),
            depth_room(final(self)@.entries, 1),
    {
        let ghost v = self@;
        let state = self.state();
        self.entries.clear();
        self.git_status = GitStatusMap::new();
        assert(self@.entries =~= Seq::empty());
        let root = self.root.clone();
        self.load_directory(&root, 0, disk);
        self.load_git_status(changes);
        proof {
            let s = self@.entries;
            lemma_expanded_paths_len(v.entries);
            assert(state@.expanded.len() == state.expanded@.len());
            lemma_shown_depth(v.root, 0, Map::empty(), *disk);
            assert(s =~= shown_in(v.root, 0, Map::empty(), *disk));
            assert(v.entries.len() == old(self).entries@.len());
        }
        self.restore_state(&state, disk);
        let ghost back = self@;
        if self.selected >= self.entries.len() {
            self.selected = if self.entries.len() == 0 {
                0
            } else {
                self.entries.len() - 1
            };
        }
        self.retain_marks();
    }

    /// Drops the marks on paths that no entry has.
    pub fn retain_marks(&mut self)
        requires
            old(self).marked.wf(),
        ensures
            final(self)@ == (TreeView {
                marked: old(self)@.marked.filter(|t: Seq<char>| shows(old(self)@.entries, t)),
                ..old(self)@
            }),
            final(self).marked.wf(),
    {
        let ghost s = self@.marked;
        let ghost entries = self@.entries;
        let ghost keep = |t: Seq<char>| shows(entries, t);
        let mut kept: Vec<PathBuf> = Vec::new();
        let mut i: usize = 0;
        proof {
            reveal(Seq::filter);
            assert(path_texts(kept@) =~= s.take(0).filter(keep));
            lemma_filter_increasing(s, keep);
        }
        while i < self.marked.paths.len()
            invariant
                i <= self.marked.paths@.len(),
                s == self.marked@,
                entries == self@.entries,
                keep == (|t: Seq<char>| shows(entries, t)),
                path_texts(kept@) == s.take(i as int).filter(keep),
            decreases self.marked.paths@.len() - i,
        {
            proof {
                reveal(Seq::filter);
                assert(s.take(i + 1).drop_last() =~= s.take(i as int));
                assert(s.take(i + 1).last() == s[i as int]);
                lemma_entry_at(entries, s[i as int]);
                assert(entries.len() == self.entries@.len());
            }
            let ghost before = kept@;
            if let Some(k) = self.find_entry(&self.marked.paths[i]) {
                assert(shows(entries, s[i as int])) by {
                    assert(parts(entries[k as int].path) == parts(s[i as int]));
                }
                kept.push(self.marked.paths[i].clone());
                assert(path_texts(kept@) =~= path_texts(before).push(s[i as int]));
            } else {
                assert(!shows(entries, s[i as int]));
            }
            i += 1;
        }
        assert(s.take(i as int) =~= s);
        self.marked = PathSet { paths: kept };
    }
}

// ── Width ────────────────────────────────────────────────────────────────
/// The columns that an entry takes up: indentation, icon, mark, name, status
/// and padding.
pub open spec fn entry_width(e: EntryView, marked: Seq<Seq<char>>) -> nat {
    2 * e.depth + (if e.is_dir {
        2nat
    } else {
        1
    }) + (if holds(marked, e.path) {
        2nat
    } else {
        0
    }) + display_width(e.name) + (if e.git_status is Some {
        2nat
    } else {
        0
    }) + 2
}

/// The columns that the widest entry takes up.
pub open spec fn widest(s: Seq<EntryView>, marked: Seq<Seq<char>>) -> nat
    decreases s.len(),
{
    if s.len() == 0 {
        0
    } else {
        let w = widest(s.drop_last(), marked);
        let e = entry_width(s.last(), marked);
        if e > w {
            e
        } else {
            w
        }
    }
}

/// The width of the tree where `max_width` columns are available: that of the
/// widest entry (20 columns where there is none), but no less than the minimum
/// and no more than the configured share. Widths wrap around at 2^16.
pub open spec fn tree_width(v: TreeView, max_width: u16) -> int {
    let content = (if v.entries.len() == 0 {
        20nat
    } else {
        widest(v.entries, v.marked)
    }) % 0x10000;
    let share = (max_width as int * v.max_width_percent as int / 100) % 0x10000;
    let most = if share > v.min_width as int {
        share
    } else {
        v.min_width as int
    };
    if content < v.min_width {
        v.min_width as int
    } else if content > most {
        most
    } else {
        content as int
    }
}

impl FileTree {
    /// Compute the width based on content (longest visible filename).
    pub fn compute_width(&self, max_width: u16) -> (r: u16)
        ensures
            r == tree_width(self@, max_width),
    {
        let ghost s = self@.entries;
        let mut content: u128 = 0;
        let mut i: usize = 0;
        while i < self.entries.len()
            invariant
                i <= self.entries@.len(),
                s == self@.entries,
                content == widest(s.take(i as int), self@.marked),
            decreases self.entries@.len() - i,
        {
            let e = &self.entries[i];
            let indent = e.depth as u128 * 2;
            let icon: u128 = if e.is_dir {
                2
            } else {
                1
            };
            let mark: u128 = if self.marked.contains(&e.path) {
                2
            } else {
                0
            };
            let name = width_of(&e.name) as u128;
            let git: u128 = if e.git_status.is_some() {
                2
            } else {
                0
            };
            let width = indent + icon + mark + name + git + 2;
            assert(s.take(i + 1).drop_last() =~= s.take(i as int));
            assert(s.take(i + 1).last() == e@);
            assert(width == entry_width(e@, self@.marked));
            if width > content {
                content = width;
            }
            i += 1;
        }
        assert(s.take(i as int) =~= s);
        if self.entries.len() == 0 {
            content = 20;
        }
        let content = (content % 0x10000) as u16;
        let percent = self.max_width_percent as u32;
        assert(max_width as u32 * percent <= 65535 * 255) by (nonlinear_arith)
            requires
                max_width <= 65535,
                percent <= 255,
        ;
        let share = ((max_width as u32 * percent / 100) % 0x10000) as u16;
        let most = if share > self.min_width {
            share
        } else {
            self.min_width
        };
        if content < self.min_width {
            self.min_width
        } else if content > most {
            most
        } else {
            content
        }
    }

    /// The size that the tree asks for in a viewport: its own width, and the
    /// whole height.
    pub fn required_size(&self, viewport: (u16, u16)) -> (r: Option<(u16, u16)>)
        ensures
            r matches Some(size) && size.0 == tree_width(self@, viewport.0) && size.1
                == viewport.1,
    {
        let width = self.compute_width(viewport.0);
        Some((width, viewport.1))
    }
}

// ── Moving ───────────────────────────────────────────────────────────────
/// `v` with the selection one entry further up.
pub open spec fn moved_up(v: TreeView) -> TreeView {
    if v.selected > 0 {
        TreeView { selected: (v.selected - 1) as nat, ..v }
    } else {
        v
    }
}

/// `v` with the selection one entry further down.
pub open spec fn moved_down(v: TreeView) -> TreeView {
    if v.selected + 1 < v.entries.len() {
        TreeView { selected: v.selected + 1, ..v }
    } else {
        v
    }
}

/// The larger of 0 and `a - b`.
pub open spec fn less_by(a: int, b: int) -> int {
    if a > b {
        a - b
    } else {
        0
    }
}

/// `v` scrolled so that the selection is visible.
pub open spec fn scrolled(v: TreeView) -> TreeView {
    let height = v.cached_height as int;
    if v.selected < v.scroll {
        TreeView { scroll: v.selected, ..v }
    } else if v.selected >= v.scroll + less_by(height, 1) {
        TreeView { scroll: (v.selected - less_by(height, 2)) as nat, ..v }
    } else {
        v
    }
}

/// The position of the last directory at `depth` in `s`, or `-1`.
pub open spec fn dir_above(s: Seq<EntryView>, depth: int) -> int
    decreases s.len(),
{
    if s.len() == 0 {
        -1
    } else if s.last().is_dir && s.last().depth == depth {
        s.len() - 1
    } else {
        dir_above(s.drop_last(), depth)
    }
}

/// `v` after leaving the current directory: an expanded directory under the
/// selection is collapsed in place; else the selection moves to the directory
/// above, which is collapsed.
pub open spec fn left_dir(v: TreeView) -> TreeView {
    if v.selected >= v.entries.len() {
        v
    } else {
        let i = v.selected as int;
        let e = v.entries[i];
        if e.is_dir && e.expanded {
            TreeView { entries: collapse_at(v.entries, i), ..v }
        } else if e.depth == 0 {
            v
        } else {
            let k = dir_above(v.entries.take(i), e.depth - 1);
            if k < 0 {
                scrolled(v)
            } else {
                let entries = if v.entries[k].expanded {
                    collapse_at(v.entries, k)
                } else {
                    v.entries
                };
                scrolled(TreeView { entries, selected: k as nat, ..v })
            }
        }
    }
}

/// `v` with the selection on the entry for `t`; the directory that `t` is in
/// is expanded first.
pub open spec fn revealed(v: TreeView, t: Seq<char>, disk: Listings) -> TreeView {
    let entries = match parent(t) {
        Some(p) => if parts(p) != parts(v.root) {
            toggle_at(v.entries, collapsed_at(v.entries, p), v.git_status, disk)
        } else {
            v.entries
        },
        None => v.entries,
    };
    let k = entry_at(entries, t);
    if 0 <= k < entries.len() {
        scrolled(TreeView { entries, selected: k as nat, ..v })
    } else {
        TreeView { entries, ..v }
    }
}

/// The directory in which new files are created: the selected directory, or
/// the parent of the selected file, or the root.
pub open spec fn create_dir_of(v: TreeView) -> Seq<char> {
    if v.selected < v.entries.len() {
        let e = v.entries[v.selected as int];
        if e.is_dir {
            e.path
        } else {
            match parent(e.path) {
                Some(p) => p,
                None => v.root,
            }
        }
    } else {
        v.root
    }
}

/// `v` after opening the selected entry: a directory is toggled.
pub open spec fn opened_selected(v: TreeView, disk: Listings) -> TreeView {
    TreeView { entries: toggle_at(v.entries, v.selected as int, v.git_status, disk), ..v }
}

/// The file that opening the selected entry opens.
pub open spec fn file_to_open(v: TreeView) -> Option<Seq<char>> {
    if v.selected < v.entries.len() && !v.entries[v.selected as int].is_dir {
        Some(v.entries[v.selected as int].path)
    } else {
        None
    }
}

/// What [`dir_above`] gives.
pub proof fn lemma_dir_above(s: Seq<EntryView>, depth: int)
    ensures
        -1 <= dir_above(s, depth) < s.len(),
        dir_above(s, depth) >= 0 ==> s[dir_above(s, depth)].is_dir && s[dir_above(s, depth)].depth
            == depth,
        forall|i: int|
            dir_above(s, depth) < i < s.len() ==> !((#[trigger] s[i]).is_dir && s[i].depth == depth),
    decreases s.len(),
{
    if s.len() > 0 && !(s.last().is_dir && s.last().depth == depth) {
        lemma_dir_above(s.drop_last(), depth);
        assert forall|i: int| dir_above(s, depth) < i < s.len() implies !((#[trigger] s[i]).is_dir
            && s[i].depth == depth) by {
            if i < s.len() - 1 {
                assert(s.drop_last()[i] == s[i]);
            }
        }
    }
}

impl FileTree {
    /// Move selection up
    pub fn move_up(&mut self)
        ensures
            final(self)@ == moved_up(old(self)@),
            final(self).marked == old(self).marked,
    {
        if self.selected > 0 {
            self.selected -= 1;
        }
    }

    /// Move selection down
    pub fn move_down(&mut self)
        ensures
            final(self)@ == moved_down(old(self)@),
            final(self).marked == old(self).marked,
    {
        assert(self@.entries.len() == self.entries@.len());
        if self.selected < self.entries.len() && self.entries.len() - self.selected > 1 {
            self.selected += 1;
        }
    }

    /// Update scroll to ensure selected is visible
    pub fn update_scroll(&mut self)
        ensures
            final(self)@ == scrolled(old(self)@),
            final(self).marked == old(self).marked,
    {
        let height = self.cached_height as usize;
        let most = if height > 1 {
            height - 1
        } else {
            0
        };
        if self.selected < self.scroll {
            self.scroll = self.selected;
        } else if self.selected - self.scroll >= most {
            let above = if height > 2 {
                height - 2
            } else {
                0
            };
            self.scroll = self.selected - above;
        }
    }

    /// Collapse the current directory and move the selection to its parent.
    /// When the current entry is an expanded directory, it is collapsed in
    /// place; otherwise the selection moves to the parent directory, which
    /// is then collapsed.
    pub fn go_to_parent(&mut self)
        ensures
            final(self)@ == left_dir(old(self)@),
            final(self).marked == old(self).marked,
    {
        let ghost v = self@;
        assert(v.entries.len() == self.entries@.len());
        if self.selected >= self.entries.len() {
            return;
        }
        let selected = self.selected;
        if self.entries[selected].is_dir && self.entries[selected].expanded {
            self.collapse(selected);
            return;
        }
        let depth = self.entries[selected].depth;
        if depth == 0 {
            return;
        }
        let ghost above = v.entries.take(selected as int);
        let mut idx: usize = selected;
        assert(above.take(idx as int) =~= above);
        while idx > 0
            invariant
                idx <= selected < self.entries@.len(),
                depth > 0,
                self@ == v,
                *self == *old(self),
                selected == v.selected,
                above == v.entries.take(selected as int),
                dir_above(above, depth - 1) == dir_above(above.take(idx as int), depth - 1),
                v.entries[selected as int].depth == depth,
                left_dir(v) == ({
                    let k = dir_above(above, depth - 1);
                    if k < 0 {
                        scrolled(v)
                    } else {
                        let entries = if v.entries[k].expanded {
                            collapse_at(v.entries, k)
                        } else {
                            v.entries
                        };
                        scrolled(TreeView { entries, selected: k as nat, ..v })
                    }
                }),
            decreases idx,
        {
            assert(above.take(idx as int).drop_last() =~= above.take(idx - 1));
            assert(above.take(idx as int).last() == self.entries@[idx - 1]@);
            if self.entries[idx - 1].is_dir && self.entries[idx - 1].depth == depth - 1 {
                self.selected = idx - 1;
                if self.entries[idx - 1].expanded {
                    self.collapse(idx - 1);
                }
                self.update_scroll();
                return;
            }
            idx -= 1;
        }
        assert(above.take(0) =~= Seq::empty());
        self.update_scroll();
    }

    /// Moves the selection onto the entry with the given path, expanding its
    /// parent directory when needed.
    pub fn reveal_path(&mut self, path: &PathBuf, disk: &Listings)
        requires
            depth_room(old(self)@.entries, 1),
        ensures
            final(self)@ == revealed(old(self)@, path@, *disk),
            final(self).marked == old(self).marked,
    {
        if let Some(up) = path.parent() {
            if !up.same_as(&self.root) {
                let idx = self.find_collapsed(&up);
                proof {
                    lemma_collapsed_at(self@.entries, up@);
                    if idx < self.entries@.len() {
                        assert(self@.entries[idx as int].depth + 1 < usize::MAX);
                    }
                }
                self.toggle_expand(idx, disk);
            }
        }
        assert(self@.entries.len() == self.entries@.len());
        if let Some(idx) = self.find_entry(path) {
            self.selected = idx;
            self.update_scroll();
        }
    }

    /// The directory in which new files/directories are created: the
    /// selected directory itself, or the parent of the selected file.
    pub fn create_base_dir(&self) -> (r: PathBuf)
        ensures
            r@ == create_dir_of(self@),
    {
        assert(self@.entries.len() == self.entries@.len());
        if self.selected < self.entries.len() {
            let e = &self.entries[self.selected];
            if e.is_dir {
                e.path.clone()
            } else {
                match e.path.parent() {
                    Some(p) => p,
                    None => self.root.clone(),
                }
            }
        } else {
            self.root.clone()
        }
    }

    /// Open the selected file or toggle directory expansion. Hands over the
    /// file to open, if it is one.
    pub fn open_selected(&mut self, disk: &Listings) -> (r: Option<PathBuf>)
        requires
            depth_room(old(self)@.entries, 1),
        ensures
            final(self)@ == opened_selected(old(self)@, *disk),
            match r {
                Some(p) => file_to_open(old(self)@) == Some(p@),
                None => file_to_open(old(self)@) is None,
            },
            final(self).marked == old(self).marked,
    {
        assert(self@.entries.len() == self.entries@.len());
        if self.selected >= self.entries.len() {
            return None;
        }
        assert(self@.entries[self.selected as int].depth + 1 < usize::MAX);
        if self.entries[self.selected].is_dir {
            self.toggle_expand(self.selected, disk);
            None
        } else {
            Some(self.entries[self.selected].path.clone())
        }
    }
}

/// The tree is never narrower than its minimum, and never wider than its share
/// of the screen unless the minimum is.
pub proof fn law_width_bounds(v: TreeView, max_width: u16)
    requires
        max_width as int * v.max_width_percent as int / 100 < 0x10000,
    ensures
        v.min_width <= tree_width(v, max_width),
        tree_width(v, max_width) <= v.min_width || tree_width(v, max_width) <= max_width as int
            * v.max_width_percent as int / 100,
{
    assert(0 <= max_width as int * v.max_width_percent as int) by (nonlinear_arith)
        requires
            max_width >= 0,
            v.max_width_percent >= 0,
    ;
}

} // verus!

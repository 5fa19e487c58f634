//! The file tree: a flattened view of directories, with a selection, marks
//! and a scroll position.
use crate::entry::{
    children, entry_views, lemma_children, load_entries, EntryView, FileEntry, GitStatus,
    GitStatusMap, Listings,
};
use crate::path::{parts, path_text, path_texts, Part, PathBuf};
use crate::path_set::PathSet;
use crate::sort::{place, stable_sort};
use vstd::prelude::*;

verus! {

/// The width that a text takes up on the screen, in columns.
pub uninterp spec fn display_width(s: Seq<char>) -> nat;

/// `UnicodeWidthStr::width` gives the number of columns that a text takes up;
/// the contract only gives that number a name.
#[verifier::external_body]
pub(crate) fn width_of(s: &str) -> (r: usize)
    ensures
        r == display_width(s@),
{
    unicode_width::UnicodeWidthStr::width(s)
}

/// A snapshot of the browsing position, as a mathematical value.
pub struct StateView {
    pub root: Seq<char>,
    pub expanded: Seq<Seq<char>>,
    pub selected: Option<Seq<char>>,
    pub scroll: nat,
}

/// A snapshot of the file tree's browsing position (expanded directories,
/// selection and scroll), used to restore the tree after it has been closed.
#[derive(Debug)]
pub struct FileTreeState {
    pub root: PathBuf,
    pub expanded: Vec<PathBuf>,
    pub selected: Option<PathBuf>,
    pub scroll: usize,
}

impl View for FileTreeState {
    type V = StateView;

    open spec fn view(&self) -> StateView {
        StateView {
            root: self.root@,
            expanded: path_texts(self.expanded@),
            selected: path_text(self.selected),
            scroll: self.scroll as nat,
        }
    }
}

/// The file tree, as a mathematical value.
pub struct TreeView {
    pub root: Seq<char>,
    pub entries: Seq<EntryView>,
    pub selected: nat,
    pub scroll: nat,
    pub filter_mode: bool,
    pub filter_query: Seq<char>,
    pub show_git_status: bool,
    pub git_status: Map<Seq<Part>, GitStatus>,
    pub max_width_percent: u8,
    pub min_width: u16,
    pub cached_height: u16,
    pub closed: bool,
    pub marked: Seq<Seq<char>>,
    pub anchor: Option<usize>,
}

/// The file tree sidebar component
#[derive(Debug)]
pub struct FileTree {
    /// Root directory of the workspace
    pub root: PathBuf,
    /// All entries in the tree (flattened)
    pub entries: Vec<FileEntry>,
    /// Currently selected entry index
    pub selected: usize,
    /// Scroll offset for the visible area
    pub scroll: usize,
    /// Whether we're in filter mode
    pub filter_mode: bool,
    /// The filter query string
    pub filter_query: String,
    /// Whether to show git status
    pub show_git_status: bool,
    /// Cached git status for files
    pub git_status: GitStatusMap,
    /// Maximum width as percentage of total width
    pub max_width_percent: u8,
    /// Minimum width in columns
    pub min_width: u16,
    /// Cached height for scroll calculations
    pub cached_height: u16,
    /// Set to true when the tree should be closed by the parent.
    pub closed: bool,
    /// Entries marked with `v`/`V`, acted upon by e.g. delete.
    pub marked: PathSet,
    /// Anchor of the last `v` selection, used by `V` to select a range.
    pub anchor: Option<usize>,
}

impl View for FileTree {
    type V = TreeView;

    open spec fn view(&self) -> TreeView {
        TreeView {
            root: self.root@,
            entries: entry_views(self.entries@),
            selected: self.selected as nat,
            scroll: self.scroll as nat,
            filter_mode: self.filter_mode,
            filter_query: self.filter_query@,
            show_git_status: self.show_git_status,
            git_status: self.git_status@,
            max_width_percent: self.max_width_percent,
            min_width: self.min_width,
            cached_height: self.cached_height,
            closed: self.closed,
            marked: self.marked@,
            anchor: self.anchor,
        }
    }
}

// ── Expanding and collapsing ─────────────────────────────────────────────
/// The number of entries at the start of `s` that lie deeper than `depth`.
pub open spec fn run_deeper(s: Seq<EntryView>, depth: nat) -> nat
    decreases s.len(),
{
    if s.len() > 0 && s[0].depth > depth {
        1 + run_deeper(s.skip(1), depth)
    } else {
        0
    }
}

/// `s` with the directory at `i` collapsed: what it showed is gone.
pub open spec fn collapse_at(s: Seq<EntryView>, i: int) -> Seq<EntryView> {
    let rest = s.skip(i + 1);
    s.take(i).push(EntryView { expanded: false, ..s[i] }) + rest.skip(
        run_deeper(rest, s[i].depth) as int,
    )
}

/// `s` with the directory at `i` expanded: it shows `kids`.
pub open spec fn expand_at(s: Seq<EntryView>, i: int, kids: Seq<EntryView>) -> Seq<EntryView> {
    s.take(i).push(EntryView { expanded: true, ..s[i] }) + kids + s.skip(i + 1)
}

/// What the directory `dir` shows when it is expanded at `depth`: nothing if
/// it cannot be read.
pub open spec fn shown_in(
    dir: Seq<char>,
    depth: nat,
    git: Map<Seq<Part>, GitStatus>,
    disk: Listings,
) -> Seq<EntryView> {
    match disk.items(dir) {
        Some(items) => children(items, depth, git),
        None => Seq::empty(),
    }
}

/// `s` with the directory at `i` toggled; anything else stays as it is.
pub open spec fn toggle_at(
    s: Seq<EntryView>,
    i: int,
    git: Map<Seq<Part>, GitStatus>,
    disk: Listings,
) -> Seq<EntryView> {
    if !(0 <= i < s.len()) || !s[i].is_dir {
        s
    } else if s[i].expanded {
        collapse_at(s, i)
    } else {
        expand_at(s, i, shown_in(s[i].path, s[i].depth + 1, git, disk))
    }
}

pub proof fn lemma_run_deeper(s: Seq<EntryView>, depth: nat)
    ensures
        run_deeper(s, depth) <= s.len(),
    decreases s.len(),
{
    if s.len() > 0 && s[0].depth > depth {
        lemma_run_deeper(s.skip(1), depth);
    }
}

impl FileTree {
    /// Whether toggling the entry at `idx` would read the directory there.
    pub open spec fn reads_dir(&self, idx: int) -> bool {
        0 <= idx < self.entries@.len() && self.entries@[idx].is_dir && !self.entries@[idx].expanded
    }

    /// Toggle expansion of a directory
    pub fn toggle_expand(&mut self, idx: usize, disk: &Listings)
        requires
            old(self).reads_dir(idx as int) ==> old(self).entries@[idx as int].depth < usize::MAX,
        ensures
            final(self)@ == (TreeView {
                entries: toggle_at(
                    old(self)@.entries,
                    idx as int,
                    old(self)@.git_status,
                    *disk,
                ),
                ..old(self)@
            }),
            final(self).marked == old(self).marked,
    {
        if idx >= self.entries.len() {
            return;
        }
        if !self.entries[idx].is_dir {
            return;
        }
        if self.entries[idx].expanded {
            self.collapse(idx);
        } else {
            let depth = self.entries[idx].depth + 1;
            let path = self.entries[idx].path.clone();
            let ghost s = self@.entries;
            self.load_directory_children(&path, depth, idx + 1, disk);
            let ghost loaded = self@.entries;
            assert(loaded.len() == self.entries@.len());
            let mut entry = self.entries[idx].clone();
            entry.expanded = true;
            let ghost opened = entry@;
            self.entries.set(idx, entry);
            proof {
                assert(self@.entries =~= loaded.update(idx as int, opened));
                assert(loaded[idx as int] == s[idx as int]);
                let kids = shown_in(s[idx as int].path, s[idx as int].depth + 1, self@.git_status, *disk);
                assert(self@.entries =~= expand_at(s, idx as int, kids));
            }
        }
    }

    /// Collapses the directory at `idx`.
    pub(crate) fn collapse(&mut self, idx: usize)
        requires
            idx < old(self).entries@.len(),
        ensures
            final(self)@ == (TreeView {
                entries: collapse_at(old(self)@.entries, idx as int),
                ..old(self)@
            }),
            final(self).marked == old(self).marked,
    {
        let ghost s = self@.entries;
        let ghost rest = s.skip(idx + 1);
        let depth = self.entries[idx].depth;
        let len = self.entries.len();
        let mut end: usize = idx + 1;
        assert(rest.skip(0) =~= rest);
        while end < self.entries.len() && self.entries[end].depth > depth
            invariant
                idx + 1 <= end <= self.entries@.len(),
                s == entry_views(self.entries@),
                rest == s.skip(idx + 1),
                run_deeper(rest, depth as nat) == end - idx - 1 + run_deeper(
                    rest.skip(end - idx - 1),
                    depth as nat,
                ),
            decreases self.entries@.len() - end,
        {
            assert(rest.skip(end - idx - 1)[0] == s[end as int]);
            assert(rest.skip(end - idx - 1).skip(1) =~= rest.skip(end - idx));
            end += 1;
        }
        proof {
            if end < s.len() {
                assert(rest.skip(end - idx - 1)[0] == s[end as int]);
            }
        }
        let mut tail = self.entries.split_off(end);
        self.entries.truncate(idx + 1);
        let mut entry = self.entries[idx].clone();
        entry.expanded = false;
        self.entries.set(idx, entry);
        self.entries.append(&mut tail);
        assert(self@.entries =~= collapse_at(s, idx as int));
    }

    /// Load children of a directory at a specific position
    pub(crate) fn load_directory_children(
        &mut self,
        path: &PathBuf,
        depth: usize,
        insert_idx: usize,
        disk: &Listings,
    )
        requires
            insert_idx <= old(self).entries@.len(),
        ensures
            final(self)@ == (TreeView {
                entries: old(self)@.entries.take(insert_idx as int) + shown_in(
                    path@,
                    depth as nat,
                    old(self)@.git_status,
                    *disk,
                ) + old(self)@.entries.skip(insert_idx as int),
                ..old(self)@
            }),
            final(self).marked == old(self).marked,
    {
        let ghost s = self@.entries;
        match disk.get(path) {
            None => {
                assert(s.take(insert_idx as int) + Seq::empty() + s.skip(insert_idx as int) =~= s);
            },
            Some(items) => {
                let mut loaded = load_entries(items, depth, &self.git_status);
                let ghost kids = entry_views(loaded@);
                let mut tail = self.entries.split_off(insert_idx);
                self.entries.append(&mut loaded);
                self.entries.append(&mut tail);
                assert(self@.entries =~= s.take(insert_idx as int) + kids + s.skip(
                    insert_idx as int,
                ));
            },
        }
    }
}

// ── Browsing position ────────────────────────────────────────────────────
/// The paths of the directories that are expanded, from top to bottom.
pub open spec fn expanded_paths(s: Seq<EntryView>) -> Seq<Seq<char>>
    decreases s.len(),
{
    if s.len() == 0 {
        Seq::empty()
    } else if s.last().is_dir && s.last().expanded {
        expanded_paths(s.drop_last()).push(s.last().path)
    } else {
        expanded_paths(s.drop_last())
    }
}

/// The path of the selected entry, if there is one.
pub open spec fn selected_path(v: TreeView) -> Option<Seq<char>> {
    if v.selected < v.entries.len() {
        Some(v.entries[v.selected as int].path)
    } else {
        None
    }
}

/// The browsing position of a tree.
pub open spec fn state_of(v: TreeView) -> StateView {
    StateView {
        root: v.root,
        expanded: expanded_paths(v.entries),
        selected: selected_path(v),
        scroll: v.scroll,
    }
}

/// Paths with fewer components come first.
pub open spec fn count_order() -> spec_fn(Seq<char>, Seq<char>) -> bool {
    |a: Seq<char>, b: Seq<char>| parts(a).len() < parts(b).len()
}

/// Parents before their children; paths with equally many components keep
/// their order.
pub open spec fn parents_first(s: Seq<Seq<char>>) -> Seq<Seq<char>> {
    stable_sort(count_order(), s)
}

/// The position of the first collapsed directory with the path `t`, or the
/// number of entries.
pub open spec fn collapsed_at(s: Seq<EntryView>, t: Seq<char>) -> int
    decreases s.len(),
{
    if s.len() == 0 || (s[0].is_dir && !s[0].expanded && parts(s[0].path) == parts(t)) {
        0
    } else {
        1 + collapsed_at(s.skip(1), t)
    }
}

/// The position of the first entry with the path `t`, or the number of
/// entries.
pub open spec fn entry_at(s: Seq<EntryView>, t: Seq<char>) -> int
    decreases s.len(),
{
    if s.len() == 0 || parts(s[0].path) == parts(t) {
        0
    } else {
        1 + entry_at(s.skip(1), t)
    }
}

/// `s` with the collapsed directories among `paths` expanded, one after the
/// other.
pub open spec fn expand_all(
    s: Seq<EntryView>,
    paths: Seq<Seq<char>>,
    git: Map<Seq<Part>, GitStatus>,
    disk: Listings,
) -> Seq<EntryView>
    decreases paths.len(),
{
    if paths.len() == 0 {
        s
    } else {
        let p = expand_all(s, paths.drop_last(), git, disk);
        toggle_at(p, collapsed_at(p, paths.last()), git, disk)
    }
}

/// `v` with the browsing position `state`.
pub open spec fn restored(v: TreeView, state: StateView, disk: Listings) -> TreeView {
    let entries = expand_all(v.entries, parents_first(state.expanded), v.git_status, disk);
    TreeView {
        entries,
        selected: match state.selected {
            Some(t) => {
                let k = entry_at(entries, t);
                if 0 <= k < entries.len() {
                    k as nat
                } else {
                    v.selected
                }
            },
            None => v.selected,
        },
        scroll: state.scroll,
        ..v
    }
}

/// Whether every entry could be expanded `n` times over without running out
/// of depths.
pub open spec fn depth_room(s: Seq<EntryView>, n: int) -> bool {
    forall|i: int| 0 <= i < s.len() ==> (#[trigger] s[i]).depth + n < usize::MAX
}

/// What [`collapsed_at`] gives.
pub proof fn lemma_collapsed_at(s: Seq<EntryView>, t: Seq<char>)
    ensures
        0 <= collapsed_at(s, t) <= s.len(),
        collapsed_at(s, t) < s.len() ==> ({
            let e = s[collapsed_at(s, t)];
            e.is_dir && !e.expanded && parts(e.path) == parts(t)
        }),
        forall|i: int|
            0 <= i < collapsed_at(s, t) ==> !((#[trigger] s[i]).is_dir && !s[i].expanded && parts(
                s[i].path,
            ) == parts(t)),
    decreases s.len(),
{
    if s.len() > 0 && !(s[0].is_dir && !s[0].expanded && parts(s[0].path) == parts(t)) {
        lemma_collapsed_at(s.skip(1), t);
        assert forall|i: int| 0 <= i < collapsed_at(s, t) implies !((#[trigger] s[i]).is_dir
            && !s[i].expanded && parts(s[i].path) == parts(t)) by {
            if i > 0 {
                assert(s.skip(1)[i - 1] == s[i]);
            }
        }
    }
}

/// What [`entry_at`] gives.
pub proof fn lemma_entry_at(s: Seq<EntryView>, t: Seq<char>)
    ensures
        0 <= entry_at(s, t) <= s.len(),
        entry_at(s, t) < s.len() ==> parts(s[entry_at(s, t)].path) == parts(t),
        forall|i: int| 0 <= i < entry_at(s, t) ==> parts((#[trigger] s[i]).path) != parts(t),
    decreases s.len(),
{
    if s.len() > 0 && parts(s[0].path) != parts(t) {
        lemma_entry_at(s.skip(1), t);
        assert forall|i: int| 0 <= i < entry_at(s, t) implies parts((#[trigger] s[i]).path)
            != parts(t) by {
            if i > 0 {
                assert(s.skip(1)[i - 1] == s[i]);
            }
        }
    }
}

/// Everything that a directory shows lies at the same depth.
pub proof fn lemma_shown_depth(
    dir: Seq<char>,
    depth: nat,
    git: Map<Seq<Part>, GitStatus>,
    disk: Listings,
)
    ensures
        forall|i: int|
            0 <= i < shown_in(dir, depth, git, disk).len() ==> (#[trigger] shown_in(
                dir,
                depth,
                git,
                disk,
            )[i]).depth == depth,
{
    if let Some(items) = disk.items(dir) {
        lemma_children(items, depth, git);
        let kids = children(items, depth, git);
        assert forall|i: int| 0 <= i < kids.len() implies (#[trigger] kids[i]).depth == depth by {
            assert(kids.contains(kids[i]));
        }
    }
}

/// Expanding a directory takes up at most one level of the room for depths.
proof fn lemma_depth_room(
    s: Seq<EntryView>,
    i: int,
    n: int,
    git: Map<Seq<Part>, GitStatus>,
    disk: Listings,
)
    requires
        depth_room(s, n),
        n >= 1,
        i >= s.len() || (0 <= i && s[i].is_dir && !s[i].expanded),
    ensures
        depth_room(toggle_at(s, i, git, disk), n - 1),
{
    let r = toggle_at(s, i, git, disk);
    if i < s.len() {
        let kids = shown_in(s[i].path, s[i].depth + 1, git, disk);
        lemma_shown_depth(s[i].path, s[i].depth + 1, git, disk);
        assert forall|j: int| 0 <= j < r.len() implies (#[trigger] r[j]).depth + (n - 1)
            < usize::MAX by {
            if j < i {
                assert(r[j] == s[j]);
            } else if j == i {
                assert(r[j].depth == s[i].depth);
            } else if j <= i + kids.len() {
                assert(r[j] == kids[j - i - 1]);
            } else {
                assert(r[j] == s[j - kids.len()]);
            }
        }
    } else {
        assert forall|j: int| 0 <= j < r.len() implies (#[trigger] r[j]).depth + (n - 1)
            < usize::MAX by {
            assert(s[j].depth + n < usize::MAX);
        }
    }
}

/// Sorts paths by their number of components.
fn sort_parents_first(paths: &Vec<PathBuf>) -> (r: Vec<PathBuf>)
    ensures
        path_texts(r@) == parents_first(path_texts(paths@)),
        r@.len() == paths@.len(),
{
    let ghost texts = path_texts(paths@);
    let mut out: Vec<PathBuf> = Vec::new();
    let mut i: usize = 0;
    assert(path_texts(out@) =~= parents_first(texts.take(0)));
    while i < paths.len()
        invariant
            i <= paths@.len(),
            out@.len() == i,
            texts == path_texts(paths@),
            path_texts(out@) == parents_first(texts.take(i as int)),
        decreases paths@.len() - i,
    {
        let path = paths[i].clone();
        let count = path.component_count();
        let ghost s = path_texts(out@);
        let mut k: usize = 0;
        assert(s.skip(0) =~= s);
        while k < out.len() && out[k].component_count() <= count
            invariant
                k <= out@.len(),
                s == path_texts(out@),
                count == parts(path@).len(),
                place(count_order(), s, path@) == k + place(
                    count_order(),
                    s.skip(k as int),
                    path@,
                ),
            ensures
                k <= out@.len(),
                s == path_texts(out@),
                place(count_order(), s, path@) == k + place(
                    count_order(),
                    s.skip(k as int),
                    path@,
                ),
                k < s.len() ==> parts(path@).len() < parts(s[k as int]).len(),
            decreases out@.len() - k,
        {
            assert(s.skip(k as int)[0] == s[k as int]);
            assert(s.skip(k as int).skip(1) =~= s.skip(k + 1));
            k += 1;
        }
        let ghost t = path@;
        out.insert(k, path);
        assert(path_texts(out@) =~= s.insert(k as int, t));
        assert(texts.take(i + 1).drop_last() =~= texts.take(i as int));
        assert(texts.take(i + 1).last() == t);
        i += 1;
    }
    assert(texts.take(i as int) =~= texts);
    out
}

impl FileTree {
    /// The position of the first collapsed directory with the given path.
    pub(crate) fn find_collapsed(&self, path: &PathBuf) -> (r: usize)
        ensures
            r == collapsed_at(self@.entries, path@),
            r <= self.entries@.len(),
    {
        let ghost s = self@.entries;
        let mut i: usize = 0;
        assert(s.skip(0) =~= s);
        while i < self.entries.len()
            invariant
                i <= self.entries@.len(),
                s == self@.entries,
                collapsed_at(s, path@) == i + collapsed_at(s.skip(i as int), path@),
            decreases self.entries@.len() - i,
        {
            let e = &self.entries[i];
            assert(s.skip(i as int)[0] == e@);
            if e.is_dir && !e.expanded && e.path.same_as(path) {
                return i;
            }
            assert(s.skip(i as int).skip(1) =~= s.skip(i + 1));
            i += 1;
        }
        i
    }

    /// The position of the first entry with the given path.
    pub fn find_entry(&self, path: &PathBuf) -> (r: Option<usize>)
        ensures
            match r {
                Some(i) => i < self.entries@.len() && entry_at(self@.entries, path@) == i,
                None => entry_at(self@.entries, path@) == self.entries@.len(),
            },
    {
        let ghost s = self@.entries;
        let mut i: usize = 0;
        assert(s.skip(0) =~= s);
        while i < self.entries.len()
            invariant
                i <= self.entries@.len(),
                s == self@.entries,
                entry_at(s, path@) == i + entry_at(s.skip(i as int), path@),
            decreases self.entries@.len() - i,
        {
            assert(s.skip(i as int)[0] == self.entries@[i as int]@);
            if self.entries[i].path.same_as(path) {
                return Some(i);
            }
            assert(s.skip(i as int).skip(1) =~= s.skip(i + 1));
            i += 1;
        }
        None
    }

    /// Captures the current browsing position so it can be restored later.
    pub fn state(&self) -> (r: FileTreeState)
        ensures
            r@ == state_of(self@),
    {
        let ghost s = self@.entries;
        let mut expanded: Vec<PathBuf> = Vec::new();
        let mut i: usize = 0;
        assert(path_texts(expanded@) =~= expanded_paths(s.take(0)));
        while i < self.entries.len()
            invariant
                i <= self.entries@.len(),
                s == self@.entries,
                path_texts(expanded@) == expanded_paths(s.take(i as int)),
            decreases self.entries@.len() - i,
        {
            let e = &self.entries[i];
            let ghost before = expanded@;
            assert(s.take(i + 1).drop_last() =~= s.take(i as int));
            assert(s.take(i + 1).last() == e@);
            if e.is_dir && e.expanded {
                expanded.push(e.path.clone());
                assert(path_texts(expanded@) =~= path_texts(before).push(e@.path));
            }
            i += 1;
        }
        assert(s.take(i as int) =~= s);
        let selected = if self.selected < self.entries.len() {
            Some(self.entries[self.selected].path.clone())
        } else {
            None
        };
        FileTreeState { root: self.root.clone(), expanded, selected, scroll: self.scroll }
    }

    /// Restores a previously captured browsing position: re-expands the
    /// directories (parents before their children) and restores the
    /// selection and scroll offset.
    pub fn restore_state(&mut self, state: &FileTreeState, disk: &Listings)
        requires
            depth_room(old(self)@.entries, state.expanded@.len() as int + 1),
        ensures
            final(self)@ == restored(old(self)@, state@, *disk),
            final(self).marked == old(self).marked,
            depth_room(final(self)@.entries, 1),
    {
        let ghost start = self@;
        let expanded = sort_parents_first(&state.expanded);
        let ghost paths = path_texts(expanded@);
        let mut i: usize = 0;
        while i < expanded.len()
            invariant
                i <= expanded@.len(),
                paths == path_texts(expanded@),
                depth_room(self@.entries, expanded@.len() - i + 1),
                self.marked == old(self).marked,
                self@ == (TreeView {
                    entries: expand_all(
                        start.entries,
                        paths.take(i as int),
                        start.git_status,
                        *disk,
                    ),
                    ..start
                }),
            decreases expanded@.len() - i,
        {
            let idx = self.find_collapsed(&expanded[i]);
            proof {
                let s = self@.entries;
                lemma_collapsed_at(s, expanded@[i as int]@);
                lemma_depth_room(s, idx as int, expanded@.len() - i + 1, self@.git_status, *disk);
                assert(paths.take(i + 1).drop_last() =~= paths.take(i as int));
                assert(paths.take(i + 1).last() == expanded@[i as int]@);
                if idx < s.len() {
                    assert(s[idx as int].depth + (expanded@.len() - i + 1) < usize::MAX);
                }
            }
            self.toggle_expand(idx, disk);
            i += 1;
        }
        assert(paths.take(i as int) =~= paths);
        if let Some(selected) = &state.selected {
            if let Some(idx) = self.find_entry(selected) {
                self.selected = idx;
            }
        }
        self.scroll = state.scroll;
    }
}

} // verus!

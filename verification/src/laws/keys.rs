//! What each key does in the file tree.
use crate::entry::{
    fresh_entry, law_directory_order, lemma_children, status_of, EntryView, GitStatus, ItemView,
    Listings,
};
use crate::events::{event_handled, EventResultView};
use crate::file_tree::{collapse_at, expand_at, run_deeper, shown_in, TreeView};
use crate::key::{Event, FileTreeKeys, FileTreeOpenBehavior, KeyCode, KeyEvent, KeyModifiers};
use crate::marks::{law_mark_range, law_toggle_mark};
use crate::navigate::{dir_above, lemma_dir_above};
use crate::path::{parts, Part};
use crate::path_set::{holds, increasing};
use vstd::prelude::*;

verus! {

// ── Keys and bindings ────────────────────────────────────────────────────
/// The bindings in the order in which they are tried.
pub open spec fn binding(keys: FileTreeKeys, n: int) -> KeyEvent {
    if n == 0 {
        keys.quit
    } else if n == 1 {
        keys.move_down
    } else if n == 2 {
        keys.move_up
    } else if n == 3 {
        keys.open
    } else if n == 4 {
        keys.expand
    } else if n == 5 {
        keys.collapse
    } else if n == 6 {
        keys.parent
    } else if n == 7 {
        keys.select
    } else if n == 8 {
        keys.select_extend
    } else if n == 9 {
        keys.delete
    } else if n == 10 {
        keys.create_file
    } else if n == 11 {
        keys.create_dir
    } else if n == 12 {
        keys.refresh
    } else if n == 13 {
        keys.filter
    } else if n == 14 {
        keys.goto_top
    } else {
        keys.goto_bottom
    }
}

/// Whether a key is not bound before the `n`th binding.
pub open spec fn free_before(key: KeyEvent, keys: FileTreeKeys, n: int) -> bool {
    forall|i: int| 0 <= i < n ==> #[trigger] binding(keys, i) != key
}

/// Whether a key is bound by the `n`th binding, and by none before it.
pub open spec fn bound(key: KeyEvent, keys: FileTreeKeys, n: int) -> bool {
    binding(keys, n) == key && free_before(key, keys, n)
}

/// Whether a key always closes the tree or clears its marks: Escape and
/// Control-C.
pub open spec fn leaves_tree(key: KeyEvent) -> bool {
    let m = key.modifiers;
    ||| key.code == KeyCode::Esc && !m.shift && !m.control && !m.alt && !m.logo
    ||| key.code == KeyCode::Char('c') && !m.shift && m.control && !m.alt && !m.logo
}

/// Whether a key has no meaning but that of its bindings.
pub open spec fn ordinary(key: KeyEvent) -> bool {
    &&& !leaves_tree(key)
    &&& key.code != KeyCode::Down
    &&& key.code != KeyCode::Up
    &&& key.code != KeyCode::Enter
    &&& key.code != KeyCode::Left
    &&& key.code != KeyCode::Right
}

/// Whether a key is as bindings name it.
pub open spec fn as_bound(key: KeyEvent) -> bool {
    key.code is Char ==> !key.modifiers.shift
}

// ── What changes ─────────────────────────────────────────────────────────
/// Whether at most the selection and the scroll position differ.
pub open spec fn only_moved(v: TreeView, r: TreeView) -> bool {
    r == (TreeView { selected: r.selected, scroll: r.scroll, ..v })
}

/// Whether the scroll position follows the selection, and no further than it
/// has to: a selection above the rows comes to the first row, one below them
/// to the last but one.
pub open spec fn follows(before: nat, r: TreeView) -> bool {
    let rows = r.cached_height - 1;
    if rows <= 1 {
        r.scroll == r.selected
    } else {
        &&& before <= r.selected < before + rows ==> r.scroll == before
        &&& r.selected < before ==> r.scroll == r.selected
        &&& r.selected >= before + rows ==> r.selected == r.scroll + rows - 1
    }
}

/// Whether `r` is `s` with the directory at `i` collapsed: what was listed
/// below it is gone, down to the next entry that lies no deeper.
pub open spec fn is_collapsed(s: Seq<EntryView>, i: int, r: Seq<EntryView>) -> bool {
    let gone = s.len() - r.len();
    &&& 0 <= gone && i + 1 + gone <= s.len()
    &&& forall|j: int| i < j <= i + gone ==> (#[trigger] s[j]).depth > s[i].depth
    &&& i + 1 + gone < s.len() ==> s[i + 1 + gone].depth <= s[i].depth
    &&& forall|j: int| 0 <= j < i ==> #[trigger] r[j] == s[j]
    &&& r[i] == (EntryView { expanded: false, ..s[i] })
    &&& forall|j: int| i < j < r.len() ==> #[trigger] r[j] == s[j + gone]
}

/// Whether an entry stands for an item of a directory: it has its path, is
/// named after its last component, and has the status that is known of it.
pub open spec fn stands_for(
    e: EntryView,
    item: ItemView,
    depth: nat,
    git: Map<Seq<Part>, GitStatus>,
) -> bool {
    &&& e.path == item.path
    &&& e.is_dir == item.is_dir
    &&& e.depth == depth
    &&& !e.expanded
    &&& e.git_status == (if git.contains_key(parts(item.path)) {
        Some(git[parts(item.path)])
    } else {
        None
    })
    &&& e.name == (if parts(item.path).len() > 0 {
        match parts(item.path).last() {
            Part::Name(n) => n,
            _ => Seq::empty(),
        }
    } else {
        Seq::empty()
    })
}

/// Whether the entries `r` list the items of a directory, each by one entry.
#[verifier::opaque]
pub open spec fn lists_items(
    r: Seq<EntryView>,
    items: Seq<ItemView>,
    depth: nat,
    git: Map<Seq<Part>, GitStatus>,
) -> bool {
    &&& r.len() == items.len()
    &&& forall|j: int|
        0 <= j < r.len() ==> exists|k: int|
            0 <= k < items.len() && stands_for(#[trigger] r[j], #[trigger] items[k], depth, git)
    &&& forall|k: int|
        0 <= k < items.len() ==> exists|j: int|
            0 <= j < r.len() && stands_for(#[trigger] r[j], #[trigger] items[k], depth, git)
}

/// Whether `r` is `s` with the directory at `i` expanded: what it holds on
/// disk is listed below it, one level deeper.
pub open spec fn is_expanded(
    s: Seq<EntryView>,
    i: int,
    git: Map<Seq<Part>, GitStatus>,
    disk: Listings,
    r: Seq<EntryView>,
) -> bool {
    let new = r.len() - s.len();
    &&& 0 <= new
    &&& match disk.items(s[i].path) {
        Some(items) => lists_items(r.subrange(i + 1, i + 1 + new), items, s[i].depth + 1, git),
        None => new == 0,
    }
    &&& forall|j: int| 0 <= j < i ==> #[trigger] r[j] == s[j]
    &&& r[i] == (EntryView { expanded: true, ..s[i] })
    &&& forall|j: int| i + new < j < r.len() ==> #[trigger] r[j] == s[j - new]
}

/// Collapsing a directory takes away what is listed below it.
pub proof fn lemma_collapse(s: Seq<EntryView>, i: int)
    requires
        0 <= i < s.len(),
    ensures
        is_collapsed(s, i, collapse_at(s, i)),
{
    let rest = s.skip(i + 1);
    let n = run_deeper(rest, s[i].depth) as int;
    lemma_run(rest, s[i].depth);
    let r = collapse_at(s, i);
    assert forall|j: int| i < j <= i + n implies (#[trigger] s[j]).depth > s[i].depth by {
        assert(rest[j - i - 1] == s[j]);
    }
    if i + 1 + n < s.len() {
        assert(rest[n] == s[i + 1 + n]);
    }
}

proof fn lemma_run(s: Seq<EntryView>, depth: nat)
    ensures
        run_deeper(s, depth) <= s.len(),
        forall|j: int| 0 <= j < run_deeper(s, depth) ==> (#[trigger] s[j]).depth > depth,
        run_deeper(s, depth) < s.len() ==> s[run_deeper(s, depth) as int].depth <= depth,
    decreases s.len(),
{
    if s.len() > 0 && s[0].depth > depth {
        let rest = s.skip(1);
        lemma_run(rest, depth);
        assert forall|j: int| 0 <= j < run_deeper(s, depth) implies (#[trigger] s[j]).depth
            > depth by {
            if j > 0 {
                assert(rest[j - 1] == s[j]);
            }
        }
        let n = run_deeper(rest, depth) as int;
        if n < rest.len() {
            assert(rest[n] == s[n + 1]);
        }
    }
}

/// What a directory shows: one entry for each of its items.
pub proof fn law_directory_listed(
    items: Seq<ItemView>,
    dir: Seq<char>,
    depth: nat,
    git: Map<Seq<Part>, GitStatus>,
    disk: Listings,
)
    ensures
        disk.items(dir) == Some(items) ==> lists_items(
            shown_in(dir, depth, git, disk),
            items,
            depth,
            git,
        ),
        disk.items(dir) is None ==> shown_in(dir, depth, git, disk).len() == 0,
{
    reveal(lists_items);
    if disk.items(dir) == Some(items) {
        let r = shown_in(dir, depth, git, disk);
        law_directory_order(items, depth, git);
        lemma_children(items, depth, git);
        assert forall|j: int| 0 <= j < r.len() implies exists|k: int|
            0 <= k < items.len() && stands_for(#[trigger] r[j], #[trigger] items[k], depth, git) by {
            assert(r.contains(r[j]));
        }
        assert forall|k: int| 0 <= k < items.len() implies exists|j: int|
            0 <= j < r.len() && stands_for(#[trigger] r[j], #[trigger] items[k], depth, git) by {
            let e = fresh_entry(
                items[k].path,
                items[k].is_dir,
                depth,
                status_of(git, items[k].path),
            );
            assert(r.contains(e));
            let j = choose|j: int| 0 <= j < r.len() && r[j] == e;
            assert(stands_for(r[j], items[k], depth, git));
        }
    }
}

/// Expanding a directory lists what it holds.
pub proof fn lemma_expand(s: Seq<EntryView>, i: int, git: Map<Seq<Part>, GitStatus>, disk: Listings)
    requires
        0 <= i < s.len(),
    ensures
        is_expanded(
            s,
            i,
            git,
            disk,
            expand_at(s, i, shown_in(s[i].path, s[i].depth + 1, git, disk)),
        ),
{
    let kids = shown_in(s[i].path, s[i].depth + 1, git, disk);
    let r = expand_at(s, i, kids);
    let n = kids.len() as int;
    assert(r.subrange(i + 1, i + 1 + n) =~= kids);
    match disk.items(s[i].path) {
        Some(items) => {
            assert(lists_items(kids, items, s[i].depth + 1, git)) by {
                law_directory_listed(items, s[i].path, s[i].depth + 1, git, disk);
            }
        },
        None => {
            assert(n == 0);
        },
    }
}

// ── Moving ───────────────────────────────────────────────────────────────
/// The down key moves the selection to the next entry, whatever is on the
/// screen, and stays on the last one.
pub proof fn law_key_down(
    v: TreeView,
    key: KeyEvent,
    keys: FileTreeKeys,
    behavior: FileTreeOpenBehavior,
    disk: Listings,
)
    requires
        !v.filter_mode,
        as_bound(key),
        !leaves_tree(key),
        key != keys.quit,
        key == keys.move_down || key.code == KeyCode::Down,
    ensures
        ({
            let (r, left) = event_handled(v, Event::Key(key), keys, behavior, disk);
            &&& left == EventResultView::Consumed
            &&& only_moved(v, r)
            &&& v.selected + 1 < v.entries.len() ==> r.selected == v.selected + 1
            &&& v.selected + 1 >= v.entries.len() ==> r.selected == v.selected
            &&& follows(v.scroll, r)
        }),
{
}

/// The up key moves the selection to the entry before, and stays on the first
/// one.
pub proof fn law_key_up(
    v: TreeView,
    key: KeyEvent,
    keys: FileTreeKeys,
    behavior: FileTreeOpenBehavior,
    disk: Listings,
)
    requires
        !v.filter_mode,
        as_bound(key),
        !leaves_tree(key),
        free_before(key, keys, 2),
        key == keys.move_up || key.code == KeyCode::Up,
        key.code != KeyCode::Down,
    ensures
        ({
            let (r, left) = event_handled(v, Event::Key(key), keys, behavior, disk);
            &&& left == EventResultView::Consumed
            &&& only_moved(v, r)
            &&& v.selected > 0 ==> r.selected == v.selected - 1
            &&& v.selected == 0 ==> r.selected == 0
            &&& follows(v.scroll, r)
        }),
{
    assert(binding(keys, 0) != key);
    assert(binding(keys, 1) != key);
}

/// The tree after a key was pressed `n` times.
pub open spec fn pressed(
    v: TreeView,
    key: KeyEvent,
    keys: FileTreeKeys,
    behavior: FileTreeOpenBehavior,
    disk: Listings,
    n: nat,
) -> TreeView
    decreases n,
{
    if n == 0 {
        v
    } else {
        event_handled(
            pressed(v, key, keys, behavior, disk, (n - 1) as nat),
            Event::Key(key),
            keys,
            behavior,
            disk,
        ).0
    }
}

/// Every entry can be reached by moving down: pressing the key `n` times moves
/// the selection `n` entries on, or to the last one.
pub proof fn law_down_reaches(
    v: TreeView,
    key: KeyEvent,
    keys: FileTreeKeys,
    behavior: FileTreeOpenBehavior,
    disk: Listings,
    n: nat,
)
    requires
        !v.filter_mode,
        v.selected < v.entries.len(),
        as_bound(key),
        !leaves_tree(key),
        key != keys.quit,
        key == keys.move_down || key.code == KeyCode::Down,
    ensures
        ({
            let r = pressed(v, key, keys, behavior, disk, n);
            &&& only_moved(v, r)
            &&& r.selected == if v.selected + n < v.entries.len() {
                v.selected + n as int
            } else {
                v.entries.len() - 1
            }
            &&& n > 0 && v.cached_height >= 2 ==> r.scroll <= r.selected < r.scroll
                + v.cached_height - 1
        }),
    decreases n,
{
    if n > 0 {
        law_down_reaches(v, key, keys, behavior, disk, (n - 1) as nat);
        let before = pressed(v, key, keys, behavior, disk, (n - 1) as nat);
        law_key_down(before, key, keys, behavior, disk);
    }
}

/// Pressing the up key `n` times moves the selection `n` entries back, or to
/// the first one.
pub proof fn law_up_reaches(
    v: TreeView,
    key: KeyEvent,
    keys: FileTreeKeys,
    behavior: FileTreeOpenBehavior,
    disk: Listings,
    n: nat,
)
    requires
        !v.filter_mode,
        as_bound(key),
        !leaves_tree(key),
        free_before(key, keys, 2),
        key == keys.move_up || key.code == KeyCode::Up,
        key.code != KeyCode::Down,
    ensures
        ({
            let r = pressed(v, key, keys, behavior, disk, n);
            &&& only_moved(v, r)
            &&& r.selected == if v.selected >= n {
                v.selected - n
            } else {
                0int
            }
        }),
    decreases n,
{
    if n > 0 {
        law_up_reaches(v, key, keys, behavior, disk, (n - 1) as nat);
        let before = pressed(v, key, keys, behavior, disk, (n - 1) as nat);
        law_key_up(before, key, keys, behavior, disk);
    }
}

/// Going to the top or to the bottom selects the first or the last entry.
pub proof fn law_key_ends(
    v: TreeView,
    key: KeyEvent,
    keys: FileTreeKeys,
    behavior: FileTreeOpenBehavior,
    disk: Listings,
)
    requires
        !v.filter_mode,
        as_bound(key),
        ordinary(key),
    ensures
        ({
            let (r, left) = event_handled(v, Event::Key(key), keys, behavior, disk);
            &&& bound(key, keys, 14) ==> left == EventResultView::Consumed && only_moved(v, r)
                && r.selected == 0 && r.scroll == 0
            &&& bound(key, keys, 15) ==> left == EventResultView::Consumed && only_moved(v, r)
            &&& bound(key, keys, 15) && v.entries.len() > 0 ==> r.selected == v.entries.len() - 1
                && follows(v.scroll, r)
            &&& bound(key, keys, 15) && v.entries.len() == 0 ==> r == v
        }),
{
    lemma_bindings(key, keys, 14);
    lemma_bindings(key, keys, 15);
}

/// What it is for a key not to be bound before the `n`th binding.
proof fn lemma_bindings(key: KeyEvent, keys: FileTreeKeys, n: int)
    requires
        0 <= n <= 16,
    ensures
        free_before(key, keys, n) ==> {
            &&& n > 0 ==> key != keys.quit
            &&& n > 1 ==> key != keys.move_down
            &&& n > 2 ==> key != keys.move_up
            &&& n > 3 ==> key != keys.open
            &&& n > 4 ==> key != keys.expand
            &&& n > 5 ==> key != keys.collapse
            &&& n > 6 ==> key != keys.parent
            &&& n > 7 ==> key != keys.select
            &&& n > 8 ==> key != keys.select_extend
            &&& n > 9 ==> key != keys.delete
            &&& n > 10 ==> key != keys.create_file
            &&& n > 11 ==> key != keys.create_dir
            &&& n > 12 ==> key != keys.refresh
            &&& n > 13 ==> key != keys.filter
            &&& n > 14 ==> key != keys.goto_top
            &&& n > 15 ==> key != keys.goto_bottom
        },
{
    if free_before(key, keys, n) {
        assert(n > 0 ==> binding(keys, 0) != key);
        assert(n > 1 ==> binding(keys, 1) != key);
        assert(n > 2 ==> binding(keys, 2) != key);
        assert(n > 3 ==> binding(keys, 3) != key);
        assert(n > 4 ==> binding(keys, 4) != key);
        assert(n > 5 ==> binding(keys, 5) != key);
        assert(n > 6 ==> binding(keys, 6) != key);
        assert(n > 7 ==> binding(keys, 7) != key);
        assert(n > 8 ==> binding(keys, 8) != key);
        assert(n > 9 ==> binding(keys, 9) != key);
        assert(n > 10 ==> binding(keys, 10) != key);
        assert(n > 11 ==> binding(keys, 11) != key);
        assert(n > 12 ==> binding(keys, 12) != key);
        assert(n > 13 ==> binding(keys, 13) != key);
        assert(n > 14 ==> binding(keys, 14) != key);
        assert(n > 15 ==> binding(keys, 15) != key);
    }
}

// ── Opening and closing ──────────────────────────────────────────────────
/// Opening the selected entry hands over the file, and closes the tree only if
/// it is set up to; a directory is expanded or collapsed in place.
pub proof fn law_key_open(
    v: TreeView,
    key: KeyEvent,
    keys: FileTreeKeys,
    behavior: FileTreeOpenBehavior,
    disk: Listings,
)
    requires
        !v.filter_mode,
        as_bound(key),
        !leaves_tree(key),
        free_before(key, keys, 3),
        key == keys.open || key == keys.expand || key.code == KeyCode::Enter || key.code
            == KeyCode::Right,
        key.code != KeyCode::Down && key.code != KeyCode::Up,
    ensures
        ({
            let (r, left) = event_handled(v, Event::Key(key), keys, behavior, disk);
            let i = v.selected as int;
            if i >= v.entries.len() {
                r == v && left == EventResultView::Consumed
            } else if !v.entries[i].is_dir {
                &&& left == EventResultView::OpenFile(v.entries[i].path)
                &&& behavior == FileTreeOpenBehavior::Auto ==> r == (TreeView { closed: true, ..v })
                &&& behavior == FileTreeOpenBehavior::Manual ==> r == v
            } else {
                &&& left == EventResultView::Consumed
                &&& r == (TreeView { entries: r.entries, ..v })
                &&& v.entries[i].expanded ==> is_collapsed(v.entries, i, r.entries)
                &&& !v.entries[i].expanded ==> is_expanded(
                    v.entries,
                    i,
                    v.git_status,
                    disk,
                    r.entries,
                )
            }
        }),
{
    lemma_bindings(key, keys, 3);
    if v.selected < v.entries.len() {
        lemma_collapse(v.entries, v.selected as int);
        lemma_expand(v.entries, v.selected as int, v.git_status, disk);
    }
}

/// Collapsing closes the selected directory if it is expanded, and does
/// nothing else.
pub proof fn law_key_collapse(
    v: TreeView,
    key: KeyEvent,
    keys: FileTreeKeys,
    behavior: FileTreeOpenBehavior,
    disk: Listings,
)
    requires
        !v.filter_mode,
        as_bound(key),
        !leaves_tree(key),
        free_before(key, keys, 5),
        key == keys.collapse || key.code == KeyCode::Left,
        key.code == KeyCode::Left || ordinary(key),
    ensures
        ({
            let (r, left) = event_handled(v, Event::Key(key), keys, behavior, disk);
            let i = v.selected as int;
            &&& left == EventResultView::Consumed
            &&& r == (TreeView { entries: r.entries, ..v })
            &&& if i < v.entries.len() && v.entries[i].is_dir && v.entries[i].expanded {
                is_collapsed(v.entries, i, r.entries)
            } else {
                r == v
            }
        }),
{
    lemma_bindings(key, keys, 5);
    if v.selected < v.entries.len() {
        lemma_collapse(v.entries, v.selected as int);
    }
}

/// Going to the parent collapses the selected directory if it is expanded.
/// Else the selection goes to the nearest directory above that lies one level
/// higher, which is collapsed; on the first level nothing changes.
pub proof fn law_key_parent(
    v: TreeView,
    key: KeyEvent,
    keys: FileTreeKeys,
    behavior: FileTreeOpenBehavior,
    disk: Listings,
    k: int,
)
    requires
        !v.filter_mode,
        as_bound(key),
        ordinary(key),
        bound(key, keys, 6),
        v.selected < v.entries.len(),
    ensures
        ({
            let (r, left) = event_handled(v, Event::Key(key), keys, behavior, disk);
            let i = v.selected as int;
            let e = v.entries[i];
            &&& left == EventResultView::Consumed
            &&& !(e.is_dir && e.expanded) && e.depth > 0 && (forall|j: int|
                0 <= j < i ==> !((#[trigger] v.entries[j]).is_dir && v.entries[j].depth == e.depth - 1))
                ==> only_moved(v, r) && r.selected == v.selected && follows(v.scroll, r)
            &&& if e.is_dir && e.expanded {
                r == (TreeView { entries: r.entries, ..v }) && is_collapsed(v.entries, i, r.entries)
            } else if e.depth == 0 {
                r == v
            } else {
                0 <= k < i && v.entries[k].is_dir && v.entries[k].depth == e.depth - 1 && (forall|
                    j: int,
                |
                    k < j < i ==> !((#[trigger] v.entries[j]).is_dir && v.entries[j].depth == e.depth
                        - 1)) ==> {
                    &&& r == (TreeView { entries: r.entries, selected: k as nat, scroll: r.scroll, ..v
                    })
                    &&& follows(v.scroll, r)
                    &&& if v.entries[k].expanded {
                        is_collapsed(v.entries, k, r.entries)
                    } else {
                        r.entries == v.entries
                    }
                }
            }
        }),
{
    lemma_bindings(key, keys, 6);
    let i = v.selected as int;
    let e = v.entries[i];
    lemma_collapse(v.entries, i);
    let above = v.entries.take(i);
    lemma_dir_above(above, e.depth - 1);
    let d = dir_above(above, e.depth - 1);
    if d >= 0 {
        assert(above[d] == v.entries[d]);
    }
    if 0 <= k < i && v.entries[k].is_dir && v.entries[k].depth == e.depth - 1 && (forall|j: int|
        k < j < i ==> !((#[trigger] v.entries[j]).is_dir && v.entries[j].depth == e.depth - 1)) {
        lemma_collapse(v.entries, k);
        assert(above[k] == v.entries[k]);
        if d > k {
            assert(above[d] == v.entries[d]);
        }
        assert(d == k);
    }
}

/// The keys that leave the tree: the quit key and Control-C close it, and
/// Escape closes it once nothing is marked.
pub proof fn law_key_quit(
    v: TreeView,
    key: KeyEvent,
    keys: FileTreeKeys,
    behavior: FileTreeOpenBehavior,
    disk: Listings,
)
    requires
        !v.filter_mode,
        as_bound(key),
        leaves_tree(key) || key == keys.quit,
    ensures
        ({
            let (r, left) = event_handled(v, Event::Key(key), keys, behavior, disk);
            &&& left == EventResultView::Consumed
            &&& if leaves_tree(key) && key.code == KeyCode::Esc {
                &&& r.marked.len() == 0 && r.anchor is None
                &&& r.closed == (v.closed || v.marked.len() == 0)
                &&& r == (TreeView { marked: r.marked, anchor: r.anchor, closed: r.closed, ..v })
            } else {
                r == (TreeView { closed: true, ..v })
            }
        }),
{
}

// ── Marks ────────────────────────────────────────────────────────────────
/// The select key marks the selected entry, or takes its mark back, and leaves
/// the mark of every other path; the entry is the anchor of the next range.
pub proof fn law_key_select(
    v: TreeView,
    key: KeyEvent,
    keys: FileTreeKeys,
    behavior: FileTreeOpenBehavior,
    disk: Listings,
    u: Seq<char>,
)
    requires
        !v.filter_mode,
        as_bound(key),
        ordinary(key),
        bound(key, keys, 7),
        increasing(v.marked),
        v.selected <= usize::MAX,
    ensures
        ({
            let (r, left) = event_handled(v, Event::Key(key), keys, behavior, disk);
            &&& left == EventResultView::Consumed
            &&& v.selected >= v.entries.len() ==> r == v
            &&& v.selected < v.entries.len() ==> {
                let t = v.entries[v.selected as int].path;
                &&& r == (TreeView { marked: r.marked, anchor: r.anchor, ..v })
                &&& r.anchor == Some(v.selected as usize)
                &&& parts(u) == parts(t) ==> holds(r.marked, u) == !holds(v.marked, u)
                &&& parts(u) != parts(t) ==> holds(r.marked, u) == holds(v.marked, u)
            }
        }),
{
    lemma_bindings(key, keys, 7);
    law_toggle_mark(v, u);
}

/// The key that extends the selection marks every entry from the anchor to the
/// selected one, both included, and takes no mark back.
pub proof fn law_key_extend(
    v: TreeView,
    key: KeyEvent,
    keys: FileTreeKeys,
    behavior: FileTreeOpenBehavior,
    disk: Listings,
    u: Seq<char>,
)
    requires
        !v.filter_mode,
        as_bound(key),
        ordinary(key),
        bound(key, keys, 8),
        increasing(v.marked),
        v.selected < v.entries.len() <= usize::MAX,
    ensures
        ({
            let (r, left) = event_handled(v, Event::Key(key), keys, behavior, disk);
            let anchor = match v.anchor {
                Some(a) => if a < v.entries.len() {
                    a as int
                } else {
                    v.entries.len() - 1
                },
                None => v.selected as int,
            };
            &&& left == EventResultView::Consumed
            &&& r == (TreeView { marked: r.marked, anchor: r.anchor, ..v })
            &&& r.anchor == Some(v.selected as usize)
            &&& holds(r.marked, u) <==> holds(v.marked, u) || exists|i: int|
                0 <= i < v.entries.len() && (anchor <= i <= v.selected || v.selected <= i <= anchor)
                    && parts((#[trigger] v.entries[i]).path) == parts(u)
        }),
{
    lemma_bindings(key, keys, 8);
    law_mark_range(v, u);
}

// ── Other actions ────────────────────────────────────────────────────────
/// The keys that ask for something to be done outside of the tree leave it as
/// it is; any other key is not for the tree.
pub proof fn law_key_requests(
    v: TreeView,
    key: KeyEvent,
    keys: FileTreeKeys,
    behavior: FileTreeOpenBehavior,
    disk: Listings,
)
    requires
        !v.filter_mode,
        as_bound(key),
        ordinary(key),
    ensures
        ({
            let r = event_handled(v, Event::Key(key), keys, behavior, disk);
            &&& bound(key, keys, 9) ==> r == (v, EventResultView::ConfirmDelete)
            &&& bound(key, keys, 10) ==> r == (v, EventResultView::CreatePrompt { is_dir: false })
            &&& bound(key, keys, 11) ==> r == (v, EventResultView::CreatePrompt { is_dir: true })
            &&& bound(key, keys, 12) ==> r == (v, EventResultView::Refresh)
            &&& bound(key, keys, 13) ==> r.1 == EventResultView::Consumed && r.0.filter_mode
                && r.0.filter_query.len() == 0 && r.0 == (TreeView {
                filter_mode: true,
                filter_query: r.0.filter_query,
                ..v
            })
            &&& free_before(key, keys, 16) ==> r == (v, EventResultView::Ignored)
        }),
{
    lemma_bindings(key, keys, 9);
    lemma_bindings(key, keys, 10);
    lemma_bindings(key, keys, 11);
    lemma_bindings(key, keys, 12);
    lemma_bindings(key, keys, 13);
    lemma_bindings(key, keys, 16);
}

/// Whether shift is held with a character makes no difference: the character
/// says so itself. What is no key is not for the tree.
pub proof fn law_shift_in_character(
    v: TreeView,
    c: char,
    m: KeyModifiers,
    keys: FileTreeKeys,
    behavior: FileTreeOpenBehavior,
    disk: Listings,
)
    requires
        !v.filter_mode,
    ensures
        event_handled(
            v,
            Event::Key(KeyEvent { code: KeyCode::Char(c), modifiers: m }),
            keys,
            behavior,
            disk,
        ) == event_handled(
            v,
            Event::Key(
                KeyEvent { code: KeyCode::Char(c), modifiers: KeyModifiers { shift: false, ..m } },
            ),
            keys,
            behavior,
            disk,
        ),
        event_handled(v, Event::Other, keys, behavior, disk) == (v, EventResultView::Ignored),
{
}

/// While a filter is typed, characters go to its end, Backspace takes the last
/// one back, Enter keeps the filter and Escape drops it; nothing else of the
/// tree changes, and other events are not for it.
pub proof fn law_filter_keys(
    v: TreeView,
    key: KeyEvent,
    keys: FileTreeKeys,
    behavior: FileTreeOpenBehavior,
    disk: Listings,
)
    requires
        v.filter_mode,
    ensures
        event_handled(v, Event::Other, keys, behavior, disk) == (v, EventResultView::Ignored),
        ({
            let (r, left) = event_handled(v, Event::Key(key), keys, behavior, disk);
            let m = key.modifiers;
            &&& r == (TreeView { filter_mode: r.filter_mode, filter_query: r.filter_query, ..v })
            &&& match key.code {
                KeyCode::Esc => left == EventResultView::Consumed && !r.filter_mode
                    && r.filter_query.len() == 0,
                KeyCode::Enter => left == EventResultView::Consumed && !r.filter_mode
                    && r.filter_query == v.filter_query,
                KeyCode::Char(c) => if m.shift || m.control || m.alt || m.logo {
                    r == v && left == EventResultView::Ignored
                } else {
                    left == EventResultView::Consumed && r.filter_mode && r.filter_query
                        == v.filter_query.push(c)
                },
                KeyCode::Backspace => {
                    &&& left == EventResultView::Consumed && r.filter_mode
                    &&& v.filter_query.len() == 0 ==> r.filter_query.len() == 0
                    &&& v.filter_query.len() > 0 ==> r.filter_query.push(v.filter_query.last())
                        == v.filter_query
                },
                _ => r == v && left == EventResultView::Ignored,
            }
        }),
{
    if v.filter_query.len() > 0 {
        assert(v.filter_query.drop_last().push(v.filter_query.last()) =~= v.filter_query);
    }
}

} // verus!

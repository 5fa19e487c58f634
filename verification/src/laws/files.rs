//! What is shown of the file system, and what is created and deleted in it.
use crate::disk::Disk;
use crate::entry::{fresh_entry, item_views, items_of, DirItem, EntryView, GitStatus, Listings};
use crate::file_tree::{
    collapsed_at, count_order, display_width, entry_at, expand_all, expanded_paths,
    lemma_collapsed_at, lemma_entry_at, parents_first, restored, shown_in, state_of, StateView,
    TreeView,
};
use crate::key::{Event, KeyCode, KeyEvent};
use crate::laws::keys::{follows, is_expanded, law_directory_listed, lemma_expand, lists_items};
use crate::marks::{covered, law_selected_paths, outermost, targets};
use crate::navigate::{
    before_failure, create_dir_of, entry_width, git_status_of, loaded, opened, refreshed, reported,
    revealed, shows, tree_width, widest, ChangeKind, FileChange,
};
use crate::path::{
    joined, lemma_join_name, lemma_parent, lemma_shorten, parent, parts, relative, remainder,
    segment, shorten, within, Part, PathBuf,
};
use crate::path_set::{
    holds, increasing, inserted, lemma_filter_increasing, lemma_inserted, lemma_place, place,
    removed,
};
use crate::prompt::{
    cancels, confirms, create_target, create_title, delete_errors, delete_lines, delete_title,
    DeleteError,
};
use crate::sort::lemma_stable_sort;
use crate::text::{
    decimal, is_white_space, last_index, lemma_last_index, trim_end, trim_start, trimmed,
};
use vstd::prelude::*;

verus! {

// ── Paths below one another ──────────────────────────────────────────────
/// Whether a text is one name, as it can stand between two separators.
pub open spec fn plain_name(n: Seq<char>) -> bool {
    &&& n.len() > 0
    &&& forall|i: int| 0 <= i < n.len() ==> #[trigger] n[i] != '/'
    &&& !(n.len() == 1 && n[0] == '.')
    &&& !(n.len() == 2 && n[0] == '.' && n[1] == '.')
}

/// A path lies in a directory when it goes on from the directory's components,
/// and what it is seen from there are the components that follow.
pub proof fn law_relative(t: Seq<char>, base: Seq<char>)
    ensures
        relative(t, base) is Some <==> parts(base).len() <= parts(t).len() && parts(t).take(
            parts(base).len() as int,
        ) == parts(base),
        relative(t, base) matches Some(r) ==> parts(r) == parts(t).skip(parts(base).len() as int),
        relative(t, base) matches Some(r) ==> (parts(t).len() == parts(base).len() && parts(t).len()
            > 0 ==> r.len() == 0),
{
    let n = parts(base).len();
    if relative(t, base) is Some {
        assert(parts(t).take(n as int) =~= parts(base));
        lemma_shorten(t);
        let s = shorten(t);
        if n == 0 {
            assert(parts(t).skip(0) =~= parts(t));
        } else if parts(s).len() > n {
            lemma_remainder(s, n);
        } else {
            assert(parts(t).skip(n as int) =~= Seq::empty());
        }
    }
    if n <= parts(t).len() && parts(t).take(n as int) == parts(base) {
        assert(parts(base).is_prefix_of(parts(t)));
    }
}

/// What is left of a path after some of its components are the others.
proof fn lemma_remainder(t: Seq<char>, n: nat)
    requires
        0 < n < parts(t).len(),
    ensures
        parts(remainder(t, n)) == parts(t).skip(n as int),
        remainder(t, n).len() > 0,
    decreases t.len(),
{
    let k = last_index(t, '/');
    lemma_last_index(t, '/');
    if k < 0 {
    } else {
        let seg = t.skip(k + 1);
        assert forall|i: int| 0 <= i < seg.len() implies #[trigger] seg[i] != '/' by {
            assert(seg[i] == t[k + 1 + i]);
        }
        lemma_no_separator(seg);
        if k == 0 || parts(t.take(k)).len() <= n {
            if k == 0 {
                assert((seq![Part::Root] + segment(seg)).skip(1) =~= segment(seg));
            } else {
                assert(segment(seg).len() > 0);
                assert((parts(t.take(k)) + segment(seg)).skip(n as int) =~= segment(seg));
            }
        } else {
            lemma_remainder(t.take(k), n);
            let rem = remainder(t.take(k), n);
            let r = rem + t.skip(k);
            assert(t.skip(k)[0] == '/');
            assert(last_index(r, '/') == rem.len()) by {
                lemma_last_index(r, '/');
                assert(r[rem.len() as int] == '/');
                let m = last_index(r, '/');
                if m > rem.len() {
                    assert(r[m] == seg[m - rem.len() - 1]);
                }
            }
            assert(r.take(rem.len() as int) =~= rem);
            assert(r.skip(rem.len() as int + 1) =~= seg);
            assert((parts(t.take(k)) + segment(seg)).skip(n as int) =~= parts(t.take(k)).skip(
                n as int,
            ) + segment(seg));
        }
    }
}

proof fn lemma_no_separator(s: Seq<char>)
    requires
        forall|i: int| 0 <= i < s.len() ==> #[trigger] s[i] != '/',
    ensures
        last_index(s, '/') < 0,
{
    lemma_last_index(s, '/');
    if last_index(s, '/') >= 0 {
        assert(s[last_index(s, '/')] != '/');
    }
}

/// Joining a name to a path adds one component; the parent of the result has
/// the components of the path, and an absolute path stands for itself.
pub proof fn law_joined(base: Seq<char>, n: Seq<char>)
    ensures
        plain_name(n) ==> parts(joined(base, n)) == parts(base).push(Part::Name(n)),
        plain_name(n) ==> (parent(joined(base, n)) matches Some(p) && parts(p) == parts(base)),
        plain_name(n) && base.len() > 0 && base.last() != '/' ==> joined(base, n) == base.push('/')
            + n,
        n.len() > 0 && n[0] == '/' ==> joined(base, n) == n,
{
    if plain_name(n) {
        lemma_no_separator(n);
        lemma_join_name(base, n);
        lemma_parent(joined(base, n));
        let all = parts(base).push(Part::Name(n));
        assert(all.drop_last() =~= parts(base));
        assert(all.last() == Part::Name(n));
        if parent(joined(base, n)) is None {
            assert(all =~= seq![Part::Root]);
            assert(all[0] == all.last());
        }
    }
}

// ── Creating ─────────────────────────────────────────────────────────────
/// A text with white space around it, as it is without.
pub proof fn law_trimmed(a: Seq<char>, m: Seq<char>, b: Seq<char>)
    requires
        forall|i: int| 0 <= i < a.len() ==> is_white_space(#[trigger] a[i]),
        forall|i: int| 0 <= i < b.len() ==> is_white_space(#[trigger] b[i]),
        m.len() > 0 ==> !is_white_space(m[0]) && !is_white_space(m.last()),
    ensures
        trimmed(a + m + b) == m,
    decreases a.len() + b.len(),
{
    let s = a + m + b;
    lemma_trim_start(a, m + b);
    assert(s =~= a + (m + b));
    if m.len() > 0 {
        assert((m + b)[0] == m[0]);
        assert(trim_start(m + b) == m + b);
        lemma_trim_end(m, b);
    } else {
        assert(m + b =~= b);
        lemma_trim_start(b, Seq::empty());
        assert(b + Seq::empty() =~= b);
        assert(trim_end(Seq::<char>::empty()) =~= Seq::empty());
        assert(m =~= Seq::empty());
    }
}

proof fn lemma_trim_start(a: Seq<char>, rest: Seq<char>)
    requires
        forall|i: int| 0 <= i < a.len() ==> is_white_space(#[trigger] a[i]),
    ensures
        trim_start(a + rest) == trim_start(rest),
    decreases a.len(),
{
    if a.len() > 0 {
        assert((a + rest)[0] == a[0]);
        assert((a + rest).skip(1) =~= a.skip(1) + rest);
        assert forall|i: int| 0 <= i < a.skip(1).len() implies is_white_space(
            #[trigger] a.skip(1)[i],
        ) by {
            assert(a.skip(1)[i] == a[i + 1]);
        }
        lemma_trim_start(a.skip(1), rest);
    } else {
        assert(a + rest =~= rest);
    }
}

proof fn lemma_trim_end(m: Seq<char>, b: Seq<char>)
    requires
        forall|i: int| 0 <= i < b.len() ==> is_white_space(#[trigger] b[i]),
        m.len() > 0,
        !is_white_space(m.last()),
    ensures
        trim_end(m + b) == m,
    decreases b.len(),
{
    if b.len() > 0 {
        assert((m + b).last() == b[b.len() - 1]);
        assert((m + b).drop_last() =~= m + b.drop_last());
        assert forall|i: int| 0 <= i < b.drop_last().len() implies is_white_space(
            #[trigger] b.drop_last()[i],
        ) by {
            assert(b.drop_last()[i] == b[i]);
        }
        lemma_trim_end(m, b.drop_last());
    } else {
        assert(m + b =~= m);
    }
}

/// A new path is created in the selected directory, or beside the selected
/// file, or in the root where nothing is selected.
pub proof fn law_create_beside(v: TreeView)
    ensures
        v.selected >= v.entries.len() ==> create_dir_of(v) == v.root,
        v.selected < v.entries.len() ==> ({
            let e = v.entries[v.selected as int];
            let p = parts(e.path);
            &&& e.is_dir ==> create_dir_of(v) == e.path
            &&& !e.is_dir && p.len() > 0 && p.last() != Part::Root ==> parts(create_dir_of(v))
                == p.drop_last()
            &&& !e.is_dir ==> (parent(e.path) matches Some(q) ==> create_dir_of(v) == q)
        }),
{
    if v.selected < v.entries.len() {
        lemma_parent(v.entries[v.selected as int].path);
    }
}

/// The path that an answer asks for: the plain name that was typed, without
/// the white space around it, in the directory of the prompt. What is blank or
/// not confirmed asks for nothing.
pub proof fn law_create_answer(
    v: TreeView,
    before: Seq<char>,
    name: Seq<char>,
    after: Seq<char>,
)
    requires
        forall|i: int| 0 <= i < before.len() ==> is_white_space(#[trigger] before[i]),
        forall|i: int| 0 <= i < after.len() ==> is_white_space(#[trigger] after[i]),
        name.len() > 0 ==> plain_name(name) && !is_white_space(name[0]) && !is_white_space(
            name.last(),
        ),
    ensures
        ({
            let input = before + name + after;
            let base = create_dir_of(v);
            &&& create_target(base, false, input) is None
            &&& name.len() == 0 ==> create_target(base, true, input) is None
            &&& name.len() > 0 ==> (create_target(base, true, input) matches Some(t) && parts(t)
                == parts(base).push(Part::Name(name)))
            &&& name.len() > 0 && v.selected < v.entries.len() ==> ({
                let e = v.entries[v.selected as int];
                let t = create_target(base, true, input)->0;
                &&& e.is_dir ==> parts(t) == parts(e.path).push(Part::Name(name))
                &&& !e.is_dir && parts(e.path).len() > 0 && parts(e.path).last() != Part::Root
                    ==> parts(t).drop_last() == parts(e.path).drop_last() && parts(t).last()
                    == Part::Name(name)
            })
        }),
{
    law_trimmed(before, name, after);
    law_create_beside(v);
    if name.len() > 0 {
        let base = create_dir_of(v);
        law_joined(base, name);
        assert(parts(base).push(Part::Name(name)).drop_last() =~= parts(base));
    }
}

/// An answer that is an absolute path asks for that path.
pub proof fn law_create_absolute(base: Seq<char>, t: Seq<char>)
    requires
        t.len() > 0,
        t[0] == '/',
        !is_white_space(t[0]),
        !is_white_space(t.last()),
    ensures
        create_target(base, true, t) == Some(t),
{
    law_trimmed(Seq::empty(), t, Seq::empty());
    assert(Seq::empty() + t + Seq::empty() =~= t);
}

/// What the prompt is headed: what is created, and where as seen from the
/// root; the root itself is a dot.
pub proof fn law_create_title(v: TreeView, is_dir: bool)
    ensures
        ({
            let lead = if is_dir {
                "New directory in "@
            } else {
                "New file in "@
            };
            let base = create_dir_of(v);
            &&& parts(base) == parts(v.root) && parts(base).len() > 0 ==> create_title(v, is_dir)
                == lead + "."@ + ": "@
            &&& relative(base, v.root) matches Some(r) ==> r.len() > 0 ==> create_title(v, is_dir)
                == lead + r + ": "@
            &&& relative(base, v.root) is None && base.len() > 0 ==> create_title(v, is_dir) == lead
                + base + ": "@
        }),
{
    let base = create_dir_of(v);
    law_relative(base, v.root);
    if parts(base) == parts(v.root) {
        assert(parts(base).take(parts(base).len() as int) =~= parts(base));
    }
}

// ── Deleting ─────────────────────────────────────────────────────────────
/// Whether `t` is `d` or lies in it.
pub open spec fn lies_in(t: Seq<char>, d: Seq<char>) -> bool {
    parts(d).len() <= parts(t).len() && parts(t).take(parts(d).len() as int) == parts(d)
}

proof fn lemma_lies_in(t: Seq<char>, d: Seq<char>)
    ensures
        within(t, d) == lies_in(t, d),
{
    if within(t, d) {
        assert(parts(t).take(parts(d).len() as int) =~= parts(d));
    }
    if lies_in(t, d) {
        assert forall|i: int| 0 <= i < parts(d).len() implies parts(d)[i] == parts(t)[i] by {
            assert(parts(t).take(parts(d).len() as int)[i] == parts(t)[i]);
        }
    }
}

/// What is deleted: the marked paths, if any are, and else the selected one;
/// a path that lies in another one of them goes with it.
pub proof fn law_delete_targets(v: TreeView)
    requires
        increasing(v.marked),
    ensures
        ({
            let gone = outermost(targets(v));
            &&& v.marked.len() > 0 ==> {
                &&& forall|i: int|
                    0 <= i < gone.len() ==> v.marked.contains(#[trigger] gone[i])
                &&& forall|i: int|
                    0 <= i < v.marked.len() ==> exists|j: int|
                        0 <= j < gone.len() && lies_in(#[trigger] v.marked[i], #[trigger] gone[j])
                &&& forall|i: int, j: int|
                    0 <= i < gone.len() && 0 <= j < gone.len() && i != j ==> !lies_in(
                        #[trigger] gone[i],
                        #[trigger] gone[j],
                    )
            }
            &&& v.marked.len() == 0 && v.selected < v.entries.len() ==> gone == seq![
                v.entries[v.selected as int].path,
            ]
            &&& v.marked.len() == 0 && v.selected >= v.entries.len() ==> gone.len() == 0
        }),
{
    let gone = outermost(targets(v));
    if v.marked.len() > 0 {
        law_selected_paths(v);
        assert forall|i: int| 0 <= i < v.marked.len() implies exists|j: int|
            0 <= j < gone.len() && lies_in(#[trigger] v.marked[i], #[trigger] gone[j]) by {
            assert(targets(v)[i] == v.marked[i]);
            let j = choose|j: int| 0 <= j < gone.len() && within(v.marked[i], #[trigger] gone[j]);
            lemma_lies_in(v.marked[i], gone[j]);
        }
        assert forall|i: int, j: int|
            0 <= i < gone.len() && 0 <= j < gone.len() && i != j implies !lies_in(
            #[trigger] gone[i],
            #[trigger] gone[j],
        ) by {
            lemma_lies_in(gone[i], gone[j]);
        }
    } else if v.selected < v.entries.len() {
        let t = v.entries[v.selected as int].path;
        reveal_with_fuel(outermost, 2);
        assert(seq![t].drop_last() =~= Seq::empty());
        assert(!covered(Seq::empty(), t));
        assert(gone =~= seq![t]);
    }
}

/// The question before deleting, and how each path is shown in it: as seen
/// from the root where it lies there, and with a slash behind a directory.
pub proof fn law_delete_question(s: Seq<Seq<char>>, root: Seq<char>, disk: Disk, i: int)
    requires
        0 <= i < s.len(),
    ensures
        s.len() == 1 ==> delete_title(s.len()) == "Delete this item?"@,
        s.len() > 1 ==> delete_title(s.len()) == "Delete these "@ + decimal(s.len()) + " items?"@,
        delete_lines(s, root, disk).len() == s.len(),
        ({
            let line = delete_lines(s, root, disk)[i];
            let shown = match relative(s[i], root) {
                Some(r) => r,
                None => s[i],
            };
            line == if disk.dir_at(s[i]) {
                shown + "/"@
            } else {
                shown
            }
        }),
{
}

/// Only `y` and Enter confirm; `n`, `q` and Escape cancel; no event does both.
pub proof fn law_confirm_keys(event: Event, key: KeyEvent)
    ensures
        confirms(Event::Key(key)) == (key.code == KeyCode::Char('y') || key.code == KeyCode::Enter),
        cancels(Event::Key(key)) == (key.code == KeyCode::Char('n') || key.code == KeyCode::Char(
            'q',
        ) || key.code == KeyCode::Esc),
        !confirms(Event::Other) && !cancels(Event::Other),
        !(confirms(event) && cancels(event)),
{
}

/// What is said of paths that could not be deleted: each with the reason, one
/// after the other.
pub proof fn law_delete_errors(s: Seq<DeleteError>, e: DeleteError)
    ensures
        delete_errors(seq![e]) == e.path@ + ": "@ + e.message@,
        s.len() > 0 ==> delete_errors(s.push(e)) == delete_errors(s) + ", "@ + (e.path@ + ": "@
            + e.message@),
{
    assert(s.push(e).drop_last() =~= s);
}

// ── Reading from disk ────────────────────────────────────────────────────
/// Whether a report is on the path `p`.
pub open spec fn reports_on(c: Option<FileChange>, p: Seq<Part>) -> bool {
    c matches Some(change) && parts(change.path@) == p
}

/// The status of a path is what the last report on it says, of those before
/// the first report that failed (the `k`th); without a report there is none.
pub proof fn law_git_status(s: Seq<Option<FileChange>>, k: int, i: int, p: Seq<Part>)
    requires
        0 <= k <= s.len(),
        forall|j: int| 0 <= j < k ==> #[trigger] s[j] is Some,
        k < s.len() ==> s[k] is None,
        -1 <= i < k,
        forall|j: int| i < j < k ==> !reports_on(#[trigger] s[j], p),
    ensures
        i < 0 ==> !git_status_of(s).contains_key(p),
        i >= 0 && reports_on(s[i], p) ==> git_status_of(s).contains_key(p) && git_status_of(s)[p]
            == (match s[i]->0.kind {
            ChangeKind::Untracked => GitStatus::Untracked,
            ChangeKind::Modified => GitStatus::Modified,
            ChangeKind::Conflict => GitStatus::Conflict,
            ChangeKind::Deleted => GitStatus::Deleted,
            ChangeKind::Renamed => GitStatus::Renamed,
        }),
{
    lemma_before_failure(s, k);
    lemma_reported(s, k, i, p);
}

proof fn lemma_reported(s: Seq<Option<FileChange>>, k: int, i: int, p: Seq<Part>)
    requires
        -1 <= i < k <= s.len() || i == -1 && k == 0,
        forall|j: int| i < j < k ==> !reports_on(#[trigger] s[j], p),
    ensures
        i < 0 ==> !reported(s.take(k)).contains_key(p),
        i >= 0 && reports_on(s[i], p) ==> reported(s.take(k)).contains_key(p) && reported(
            s.take(k),
        )[p] == (match s[i]->0.kind {
            ChangeKind::Untracked => GitStatus::Untracked,
            ChangeKind::Modified => GitStatus::Modified,
            ChangeKind::Conflict => GitStatus::Conflict,
            ChangeKind::Deleted => GitStatus::Deleted,
            ChangeKind::Renamed => GitStatus::Renamed,
        }),
    decreases k,
{
    if k > 0 {
        let t = s.take(k);
        assert(t.drop_last() =~= s.take(k - 1));
        assert(t.last() == s[k - 1]);
        if i < k - 1 {
            assert(!reports_on(s[k - 1], p));
            lemma_reported(s, k - 1, i, p);
        }
    }
}

proof fn lemma_before_failure(s: Seq<Option<FileChange>>, k: int)
    requires
        0 <= k <= s.len(),
        forall|i: int| 0 <= i < k ==> #[trigger] s[i] is Some,
        k < s.len() ==> s[k] is None,
    ensures
        before_failure(s) == k,
    decreases k,
{
    if k > 0 {
        assert(s[0] is Some);
        let rest = s.skip(1);
        assert forall|i: int| 0 <= i < k - 1 implies #[trigger] rest[i] is Some by {
            assert(rest[i] == s[i + 1]);
        }
        if k < s.len() {
            assert(rest[k - 1] == s[k]);
        }
        lemma_before_failure(rest, k - 1);
    }
}

/// A new tree lists what its root holds, with nothing expanded, selected on
/// the first entry and not scrolled; nothing is marked, and no filter is set.
pub proof fn law_new_tree(root: Seq<char>, disk: Listings, changes: Seq<Option<FileChange>>)
    ensures
        ({
            let r = opened(root, disk, changes);
            &&& r.root == root
            &&& r.selected == 0 && r.scroll == 0
            &&& !r.filter_mode && r.filter_query.len() == 0 && !r.closed
            &&& r.marked.len() == 0 && r.anchor is None
            &&& r.show_git_status
            &&& r.max_width_percent == 35 && r.min_width == 25 && r.cached_height == 20
            &&& r.git_status == git_status_of(changes)
            &&& match disk.items(root) {
                Some(items) => lists_items(r.entries, items, 0, Map::empty()),
                None => r.entries.len() == 0,
            }
        }),
{
    let r = opened(root, disk, changes);
    assert(r.entries =~= shown_in(root, 0, Map::empty(), disk));
    if let Some(items) = disk.items(root) {
        law_directory_listed(items, root, 0, Map::empty(), disk);
    }
}

/// Reading a tree anew keeps those marks whose path is still shown, and no
/// others; the selection stays on an entry, where there are any, and the rest
/// of the tree stays as it is.
pub proof fn law_refreshed(
    v: TreeView,
    disk: Listings,
    changes: Seq<Option<FileChange>>,
    u: Seq<char>,
)
    requires
        increasing(v.marked),
    ensures
        ({
            let r = refreshed(v, disk, changes);
            &&& r == (TreeView {
                entries: r.entries,
                selected: r.selected,
                git_status: git_status_of(changes),
                marked: r.marked,
                ..v
            })
            &&& r.entries.len() > 0 ==> r.selected < r.entries.len()
            &&& r.entries.len() == 0 ==> r.selected == 0
            &&& r.marked.contains(u) <==> v.marked.contains(u) && exists|i: int|
                0 <= i < r.entries.len() && parts((#[trigger] r.entries[i]).path) == parts(u)
        }),
{
    let r = refreshed(v, disk, changes);
    lemma_filter_increasing(v.marked, |t: Seq<char>| shows(r.entries, t));
}

/// Revealing a path selects the entry that has it, once there is one, and
/// scrolls to it; if there is none, the selection stays.
pub proof fn law_revealed(v: TreeView, t: Seq<char>, disk: Listings)
    ensures
        ({
            let r = revealed(v, t, disk);
            &&& r == (TreeView {
                entries: r.entries,
                selected: r.selected,
                scroll: r.scroll,
                ..v
            })
            &&& if exists|i: int|
                0 <= i < r.entries.len() && parts((#[trigger] r.entries[i]).path) == parts(t) {
                &&& r.selected < r.entries.len()
                &&& parts(r.entries[r.selected as int].path) == parts(t)
                &&& follows(v.scroll, r)
            } else {
                r.selected == v.selected && r.scroll == v.scroll
            }
        }),
{
    let r = revealed(v, t, disk);
    lemma_entry_at(r.entries, t);
}

/// The browsing position: where the tree is rooted, scrolled to and selected,
/// and the paths of the directories that are expanded.
pub proof fn law_state(v: TreeView, t: Seq<char>)
    ensures
        state_of(v).root == v.root,
        state_of(v).scroll == v.scroll,
        v.selected < v.entries.len() ==> state_of(v).selected == Some(
            v.entries[v.selected as int].path,
        ),
        v.selected >= v.entries.len() ==> state_of(v).selected is None,
        state_of(v).expanded.contains(t) <==> exists|i: int|
            0 <= i < v.entries.len() && (#[trigger] v.entries[i]).is_dir && v.entries[i].expanded
                && v.entries[i].path == t,
{
    lemma_expanded_paths(v.entries, t);
}

proof fn lemma_expanded_paths(s: Seq<EntryView>, t: Seq<char>)
    ensures
        expanded_paths(s).contains(t) <==> exists|i: int|
            0 <= i < s.len() && (#[trigger] s[i]).is_dir && s[i].expanded && s[i].path == t,
    decreases s.len(),
{
    if s.len() > 0 {
        let d = s.drop_last();
        lemma_expanded_paths(d, t);
        let (a, b) = (expanded_paths(d), expanded_paths(s));
        let last = s.len() - 1;
        if b.contains(t) {
            let k = choose|k: int| 0 <= k < b.len() && b[k] == t;
            if k < a.len() {
                assert(a[k] == t);
                assert(a.contains(t));
                let i = choose|i: int|
                    0 <= i < d.len() && (#[trigger] d[i]).is_dir && d[i].expanded && d[i].path == t;
                assert(s[i] == d[i]);
            } else {
                assert(s[last].path == t);
            }
        }
        if exists|i: int|
            0 <= i < s.len() && (#[trigger] s[i]).is_dir && s[i].expanded && s[i].path == t {
            let i = choose|i: int|
                0 <= i < s.len() && (#[trigger] s[i]).is_dir && s[i].expanded && s[i].path == t;
            if i < last {
                assert(d[i] == s[i]);
                assert(a.contains(t));
                let k = choose|k: int| 0 <= k < a.len() && a[k] == t;
                assert(b[k] == t);
            } else {
                assert(b[b.len() - 1] == t);
            }
        }
    }
}

/// Taking over a browsing position changes the entries, the selection and the
/// scroll position, and nothing else; a path that is shown afterwards is
/// selected if it was.
pub proof fn law_restored(v: TreeView, state: StateView, disk: Listings)
    ensures
        ({
            let r = restored(v, state, disk);
            &&& r == (TreeView { entries: r.entries, selected: r.selected, scroll: state.scroll, ..v })
            &&& match state.selected {
                Some(t) => if exists|i: int|
                    0 <= i < r.entries.len() && parts((#[trigger] r.entries[i]).path) == parts(t) {
                    r.selected < r.entries.len() && parts(r.entries[r.selected as int].path)
                        == parts(t)
                } else {
                    r.selected == v.selected
                },
                None => r.selected == v.selected,
            }
        }),
{
    if let Some(t) = state.selected {
        lemma_entry_at(restored(v, state, disk).entries, t);
    }
}

// ── Width ────────────────────────────────────────────────────────────────
/// The columns that an entry needs: two for each level, the icon, the mark,
/// the name, the status and two at the end.
pub open spec fn needs(v: TreeView, i: int) -> int {
    let e = v.entries[i];
    2 * e.depth + (if e.is_dir {
        2int
    } else {
        1
    }) + (if exists|k: int|
        0 <= k < v.marked.len() && parts(#[trigger] v.marked[k]) == parts(e.path) {
        2int
    } else {
        0
    }) + display_width(e.name) + (if e.git_status is Some {
        2int
    } else {
        0
    }) + 2
}

/// The tree is as wide as its widest entry needs, within its bounds: every
/// entry fits unless the tree is as wide as it may be, and it is no wider than
/// some entry needs, or its minimum.
pub proof fn law_width_fits(v: TreeView, max_width: u16, i: int)
    requires
        forall|j: int| 0 <= j < v.entries.len() ==> #[trigger] needs(v, j) < 0x10000,
        max_width as int * v.max_width_percent as int / 100 < 0x10000,
    ensures
        ({
            let w = tree_width(v, max_width);
            let share = max_width as int * v.max_width_percent as int / 100;
            let most = if share > v.min_width {
                share
            } else {
                v.min_width as int
            };
            &&& v.min_width <= w <= most
            &&& 0 <= i < v.entries.len() ==> needs(v, i) <= w || w == most
            &&& v.entries.len() > 0 ==> w == v.min_width || w == most || exists|j: int|
                0 <= j < v.entries.len() && w == #[trigger] needs(v, j)
            &&& v.entries.len() == 0 ==> w == (if v.min_width > 20 {
                v.min_width as int
            } else if most < 20 {
                most
            } else {
                20
            })
        }),
{
    assert(0 <= max_width as int * v.max_width_percent as int) by (nonlinear_arith)
        requires
            max_width >= 0,
            v.max_width_percent >= 0,
    ;
    lemma_widest(v, v.entries.len() as int);
    assert(v.entries.take(v.entries.len() as int) =~= v.entries);
}

proof fn lemma_widest(v: TreeView, n: int)
    requires
        0 <= n <= v.entries.len(),
    ensures
        forall|j: int| 0 <= j < n ==> #[trigger] needs(v, j) <= widest(v.entries.take(n), v.marked),
        n > 0 ==> exists|j: int|
            0 <= j < n && widest(v.entries.take(n), v.marked) == #[trigger] needs(v, j),
    decreases n,
{
    if n > 0 {
        lemma_widest(v, n - 1);
        let s = v.entries.take(n);
        assert(s.drop_last() =~= v.entries.take(n - 1));
        assert(s.last() == v.entries[n - 1]);
        assert(entry_width(s.last(), v.marked) == needs(v, n - 1));
        if n == 1 {
            assert(widest(v.entries.take(0), v.marked) == 0);
        }
    }
}

// ── Sets, listings and positions ─────────────────────────────────────────
/// A set of paths holds what was put in and not taken out again, in the order
/// of paths; a path that is there already stays as it is written.
pub proof fn law_path_set(s: Seq<Seq<char>>, t: Seq<char>, u: Seq<char>)
    requires
        increasing(s),
    ensures
        increasing(inserted(s, t)),
        increasing(removed(s, t)),
        holds(inserted(s, t), u) <==> holds(s, u) || parts(u) == parts(t),
        holds(removed(s, t), u) <==> holds(s, u) && parts(u) != parts(t),
        holds(s, t) ==> inserted(s, t) == s,
        !holds(s, t) ==> inserted(s, t).contains(t) && inserted(s, t).len() == s.len() + 1,
        s.contains(u) ==> inserted(s, t).contains(u),
        removed(s, t).contains(u) <==> s.contains(u) && parts(u) != parts(t),
        holds(s, u) <==> exists|i: int| 0 <= i < s.len() && parts(#[trigger] s[i]) == parts(u),
{
    lemma_inserted(s, t);
    lemma_filter_increasing(s, |x: Seq<char>| parts(x) != parts(t));
    lemma_place(s, t);
    let r = inserted(s, t);
    let k = place(s, t) as int;
    if !holds(s, t) {
        assert(r[k] == t);
    }
    if s.contains(u) {
        let i = choose|i: int| 0 <= i < s.len() && s[i] == u;
        if !holds(s, t) {
            if i < k {
                assert(r[i] == u);
            } else {
                assert(r[i + 1] == u);
            }
        }
    }
    let left = removed(s, t);
    if holds(left, u) {
        let i = choose|i: int| 0 <= i < left.len() && parts(#[trigger] left[i]) == parts(u);
        assert(left.contains(left[i]));
        let j = choose|j: int| 0 <= j < s.len() && s[j] == left[i];
        assert(parts(s[j]) == parts(u));
    }
    if holds(s, u) && parts(u) != parts(t) {
        let i = choose|i: int| 0 <= i < s.len() && parts(#[trigger] s[i]) == parts(u);
        assert(s.contains(s[i]));
        assert(left.contains(s[i]));
        let j = choose|j: int| 0 <= j < left.len() && left[j] == s[i];
        assert(parts(left[j]) == parts(u));
    }
}

/// What a directory holds is what its listing says: the first one that is for
/// its path.
pub proof fn law_listing(disk: Listings, t: Seq<char>, i: int)
    requires
        0 <= i <= disk.dirs@.len(),
        forall|j: int| 0 <= j < i ==> parts((#[trigger] disk.dirs@[j]).0@) != parts(t),
        i < disk.dirs@.len() ==> parts(disk.dirs@[i].0@) == parts(t),
    ensures
        i == disk.dirs@.len() ==> disk.items(t) is None,
        i < disk.dirs@.len() ==> (disk.items(t) matches Some(items) && items.len()
            == disk.dirs@[i].1@.len() && forall|j: int|
            0 <= j < items.len() ==> (#[trigger] items[j]).path == disk.dirs@[i].1@[j].path@
                && items[j].is_dir == disk.dirs@[i].1@[j].is_dir),
{
    lemma_items_of(disk.dirs@, t, i);
}

proof fn lemma_items_of(s: Seq<(PathBuf, Vec<DirItem>)>, t: Seq<char>, i: int)
    requires
        0 <= i <= s.len(),
        forall|j: int| 0 <= j < i ==> parts((#[trigger] s[j]).0@) != parts(t),
        i < s.len() ==> parts(s[i].0@) == parts(t),
    ensures
        i == s.len() ==> items_of(s, t) is None,
        i < s.len() ==> items_of(s, t) == Some(item_views(s[i].1@)),
    decreases s.len(),
{
    if s.len() > 0 && i > 0 {
        let rest = s.skip(1);
        assert(parts(s[0].0@) != parts(t));
        assert forall|j: int| 0 <= j < i - 1 implies parts((#[trigger] rest[j]).0@) != parts(t) by {
            assert(rest[j] == s[j + 1]);
        }
        if i < s.len() {
            assert(rest[i - 1] == s[i]);
        }
        lemma_items_of(rest, t, i - 1);
    }
}

/// A new entry has the path that it is made for, is named after the last
/// component of that, and is not expanded.
pub proof fn law_fresh_entry(t: Seq<char>, is_dir: bool, depth: nat, status: Option<GitStatus>)
    ensures
        ({
            let e = fresh_entry(t, is_dir, depth, status);
            &&& e.path == t && e.is_dir == is_dir && e.depth == depth && !e.expanded
            &&& e.git_status == status
            &&& parts(t).len() > 0 ==> (parts(t).last() matches Part::Name(n) ==> e.name == n)
            &&& parts(t).len() == 0 || !(parts(t).last() is Name) ==> e.name.len() == 0
        }),
{
}

/// What a directory holds goes to the top of the tree on the first level, and
/// else behind the entry of the directory, or to the end if it has none.
pub proof fn law_loaded_at(v: TreeView, dir: Seq<char>, depth: nat, disk: Listings, i: int)
    requires
        0 <= i <= v.entries.len(),
        forall|j: int| 0 <= j < i ==> parts((#[trigger] v.entries[j]).path) != parts(dir),
        i < v.entries.len() ==> parts(v.entries[i].path) == parts(dir),
    ensures
        ({
            let r = loaded(v, dir, depth, disk);
            let kids = shown_in(dir, depth, v.git_status, disk);
            let at = if depth == 0 {
                0
            } else if i < v.entries.len() {
                i + 1
            } else {
                i
            };
            &&& r == (TreeView { entries: r.entries, ..v })
            &&& r.entries == v.entries.take(at) + kids + v.entries.skip(at)
        }),
{
    lemma_entry_at(v.entries, dir);
    let k = entry_at(v.entries, dir);
    if k < i {
        assert(parts(v.entries[k].path) == parts(dir));
    }
    if i < k {
        assert(parts(v.entries[i].path) == parts(dir));
    }
}

/// Revealing a path first expands the directory that it is in, if that is
/// shown collapsed (as the `i`th entry) and is not the root.
pub proof fn law_revealed_expands(v: TreeView, t: Seq<char>, disk: Listings, i: int)
    requires
        parent(t) is Some,
        0 <= i <= v.entries.len(),
        forall|j: int|
            0 <= j < i ==> !((#[trigger] v.entries[j]).is_dir && !v.entries[j].expanded && parts(
                v.entries[j].path,
            ) == parts(parent(t)->0)),
        i < v.entries.len() ==> v.entries[i].is_dir && !v.entries[i].expanded && parts(
            v.entries[i].path,
        ) == parts(parent(t)->0),
    ensures
        ({
            let r = revealed(v, t, disk).entries;
            &&& i < v.entries.len() && parts(parent(t)->0) != parts(v.root) ==> is_expanded(
                v.entries,
                i,
                v.git_status,
                disk,
                r,
            )
            &&& i == v.entries.len() || parts(parent(t)->0) == parts(v.root) ==> r == v.entries
        }),
{
    let p = parent(t)->0;
    lemma_collapsed_at(v.entries, p);
    let k = collapsed_at(v.entries, p);
    if k < i {
        assert(parts(v.entries[k].path) == parts(p));
    }
    if i < k {
        assert(parts(v.entries[i].path) == parts(p));
    }
    if i < v.entries.len() {
        lemma_expand(v.entries, i, v.git_status, disk);
    }
}

/// Directories are expanded again parents first: those with fewer components
/// before those with more, none of them lost.
pub proof fn law_parents_first(s: Seq<Seq<char>>, i: int, j: int)
    ensures
        parents_first(s).to_multiset() == s.to_multiset(),
        parents_first(s).len() == s.len(),
        0 <= i < j < s.len() ==> parts(parents_first(s)[i]).len() <= parts(
            parents_first(s)[j],
        ).len(),
{
    let lt = count_order();
    lemma_stable_sort(lt, s);
    let r = parents_first(s);
    if 0 <= i < j < s.len() {
        assert(!lt(r[j], r[i]));
    }
}

/// Taking over a browsing position expands one directory after the other,
/// parents first: each that is shown collapsed then (as the `i`th entry).
pub proof fn law_expanded_again(
    v: TreeView,
    state: StateView,
    paths: Seq<Seq<char>>,
    p: Seq<char>,
    disk: Listings,
    i: int,
)
    ensures
        restored(v, state, disk).entries == expand_all(
            v.entries,
            parents_first(state.expanded),
            v.git_status,
            disk,
        ),
        expand_all(v.entries, Seq::empty(), v.git_status, disk) == v.entries,
        ({
            let s = expand_all(v.entries, paths, v.git_status, disk);
            let r = expand_all(v.entries, paths.push(p), v.git_status, disk);
            let first = 0 <= i <= s.len() && (forall|j: int|
                0 <= j < i ==> !((#[trigger] s[j]).is_dir && !s[j].expanded && parts(s[j].path)
                    == parts(p)));
            &&& first && i < s.len() && s[i].is_dir && !s[i].expanded && parts(s[i].path) == parts(p)
                ==> is_expanded(s, i, v.git_status, disk, r)
            &&& first && i == s.len() ==> r == s
        }),
{
    assert(paths.push(p).drop_last() =~= paths);
    let s = expand_all(v.entries, paths, v.git_status, disk);
    lemma_collapsed_at(s, p);
    let k = collapsed_at(s, p);
    if 0 <= i <= s.len() && (forall|j: int|
        0 <= j < i ==> !((#[trigger] s[j]).is_dir && !s[j].expanded && parts(s[j].path) == parts(
            p,
        ))) {
        if k < i {
            assert(parts(s[k].path) == parts(p));
        }
        if i < s.len() && s[i].is_dir && !s[i].expanded && parts(s[i].path) == parts(p) {
            assert(k == i);
            lemma_expand(s, i, v.git_status, disk);
        }
    }
}

} // verus!

//! What single calls and calls in a row give back, whatever they are made on.
use crate::disk::Disk;
use crate::entry::Listings;
use crate::events::{CursorKind, EventResult};
use crate::file_tree::{lemma_entry_at, FileTree, FileTreeState, TreeView};
use crate::key::{Event, FileTreeKeys, FileTreeOpenBehavior, KeyCode, KeyEvent};
use crate::laws::files::{
    law_create_answer, law_create_beside, law_delete_errors, law_delete_question, law_joined,
    law_new_tree, law_path_set, law_refreshed, law_relative, law_revealed, law_state, plain_name,
};
use crate::laws::keys::{
    as_bound, follows, is_collapsed, is_expanded, law_key_down, law_key_quit, leaves_tree,
    lemma_collapse, lemma_expand, lists_items,
};
use crate::laws::texts::{law_decimal, law_file_name};
use crate::marks::{law_toggle_mark, outermost, targets};
use crate::navigate::{dir_above, lemma_dir_above, refreshed, shows, FileChange};
use crate::path::{parent, parts, path_text, path_texts, Part, PathBuf};
use crate::path_set::{holds, increasing, lemma_filter_increasing, PathSet};
use crate::prompt::{
    create_error, created_message, delete_message, open_error, ConfirmBox, ConfirmReply,
    CreatePrompt, Creation, DeleteError,
};
use crate::text::{decimal, is_white_space, parse_number, texts, to_decimal};
use vstd::prelude::*;

verus! {

// ── Moving in the tree ───────────────────────────────────────────────────
/// Moving down goes to the next entry, whatever is on the screen, and stays on
/// the last one.
pub proof fn law_moved_down(t: &mut FileTree)
    requires
        call_ensures(FileTree::move_down, (t,), ()),
    ensures
        old(t).selected + 1 < old(t).entries@.len() ==> final(t).selected == old(t).selected + 1,
        old(t).selected + 1 >= old(t).entries@.len() ==> final(t).selected == old(t).selected,
        final(t)@.entries == old(t)@.entries,
        final(t)@.marked == old(t)@.marked,
        final(t).closed == old(t).closed,
        final(t).scroll == old(t).scroll,
{
}

/// Moving up goes to the entry before, and stays on the first one.
pub proof fn law_moved_up(t: &mut FileTree)
    requires
        call_ensures(FileTree::move_up, (t,), ()),
    ensures
        old(t).selected > 0 ==> final(t).selected == old(t).selected - 1,
        old(t).selected == 0 ==> final(t).selected == 0,
        final(t)@.entries == old(t)@.entries,
        final(t)@.marked == old(t)@.marked,
        final(t).closed == old(t).closed,
        final(t).scroll == old(t).scroll,
{
}

/// Updating the scroll position brings the selection onto the screen, and
/// moves nothing else.
pub proof fn law_scroll_updated(t: &mut FileTree)
    requires
        call_ensures(FileTree::update_scroll, (t,), ()),
    ensures
        follows(old(t).scroll as nat, final(t)@),
        final(t).selected == old(t).selected,
        final(t).cached_height == old(t).cached_height,
        final(t)@.entries == old(t)@.entries,
        final(t)@.marked == old(t)@.marked,
{
}

/// What one step down passes, one step up goes back to.
pub proof fn law_down_and_up(t: &mut FileTree, u: &mut FileTree)
    requires
        call_ensures(FileTree::move_down, (t,), ()),
        *old(u) == *final(t),
        call_ensures(FileTree::move_up, (u,), ()),
        old(t).selected + 1 < old(t).entries@.len(),
    ensures
        final(u).selected == old(t).selected,
        final(u)@.entries == old(t)@.entries,
{
}

/// Going to the parent collapses the selected directory if it is expanded, and
/// else goes to the nearest directory above that lies one level higher.
pub proof fn law_gone_to_parent(t: &mut FileTree, k: int)
    requires
        call_ensures(FileTree::go_to_parent, (t,), ()),
        old(t).selected < old(t).entries@.len(),
    ensures
        ({
            let s = old(t)@.entries;
            let i = old(t).selected as int;
            &&& s[i].is_dir && s[i].expanded ==> final(t).selected == i && is_collapsed(
                s,
                i,
                final(t)@.entries,
            )
            &&& !(s[i].is_dir && s[i].expanded) && s[i].depth == 0 ==> final(t)@ == old(t)@
            &&& !(s[i].is_dir && s[i].expanded) && s[i].depth > 0 && 0 <= k < i && s[k].is_dir
                && s[k].depth == s[i].depth - 1 && (forall|j: int|
                k < j < i ==> !((#[trigger] s[j]).is_dir && s[j].depth == s[i].depth - 1))
                ==> final(t).selected == k && (s[k].expanded ==> is_collapsed(
                s,
                k,
                final(t)@.entries,
            )) && (!s[k].expanded ==> final(t)@.entries == s)
        }),
        final(t)@.marked == old(t)@.marked,
{
    let s = old(t)@.entries;
    let i = old(t).selected as int;
    lemma_collapse(s, i);
    let above = s.take(i);
    lemma_dir_above(above, s[i].depth - 1);
    let d = dir_above(above, s[i].depth - 1);
    if d >= 0 {
        assert(above[d] == s[d]);
    }
    if 0 <= k < i && s[k].is_dir && s[k].depth == s[i].depth - 1 && (forall|j: int|
        k < j < i ==> !((#[trigger] s[j]).is_dir && s[j].depth == s[i].depth - 1)) {
        lemma_collapse(s, k);
        assert(above[k] == s[k]);
        assert(d == k);
    }
}

/// Opening the selected entry gives out the file that it is, and then changes
/// nothing; a directory is collapsed if it is expanded and else expanded.
pub proof fn law_selected_opened(t: &mut FileTree, disk: &Listings, r: Option<PathBuf>)
    requires
        call_ensures(FileTree::open_selected, (t, disk), r),
    ensures
        old(t).selected >= old(t).entries@.len() ==> r is None && final(t)@ == old(t)@,
        old(t).selected < old(t).entries@.len() ==> ({
            let e = old(t).entries@[old(t).selected as int];
            let (s, i) = (old(t)@.entries, old(t).selected as int);
            &&& r is Some <==> !e.is_dir
            &&& r matches Some(p) ==> p@ == e.path@ && final(t)@ == old(t)@
            &&& e.is_dir && e.expanded ==> is_collapsed(s, i, final(t)@.entries)
            &&& e.is_dir && !e.expanded ==> is_expanded(
                s,
                i,
                old(t)@.git_status,
                *disk,
                final(t)@.entries,
            )
        }),
        final(t).selected == old(t).selected,
        final(t)@.marked == old(t)@.marked,
{
    let (s, i) = (old(t)@.entries, old(t).selected as int);
    if i < s.len() {
        assert(s[i] == old(t).entries@[i]@);
        lemma_collapse(s, i);
        lemma_expand(s, i, old(t)@.git_status, *disk);
    }
}

/// Toggling the mark of the selected entry changes it on the path of that
/// entry and on no other, and a second time changes it back.
pub proof fn law_mark_toggled(t: &mut FileTree, u: &mut FileTree, x: Seq<char>)
    requires
        old(t).marked.wf(),
        call_ensures(FileTree::toggle_mark, (t,), ()),
        *old(u) == *final(t),
        call_ensures(FileTree::toggle_mark, (u,), ()),
    ensures
        old(t).selected >= old(t).entries@.len() ==> final(t)@ == old(t)@,
        old(t).selected < old(t).entries@.len() ==> ({
            let same = parts(x) == parts(old(t).entries@[old(t).selected as int].path@);
            &&& holds(final(t)@.marked, x) == (holds(old(t)@.marked, x) != same)
            &&& final(t).anchor == Some(old(t).selected)
        }),
        holds(final(u)@.marked, x) == holds(old(t)@.marked, x),
        final(t)@.entries == old(t)@.entries,
        final(t).selected == old(t).selected,
{
    law_toggle_mark(old(t)@, x);
    law_toggle_mark(old(u)@, x);
}

/// A tree that is opened lists its root, with nothing expanded, the first
/// entry selected and nothing marked.
pub proof fn law_tree_opened(
    root: PathBuf,
    disk: &Listings,
    changes: &Vec<Option<FileChange>>,
    r: FileTree,
)
    requires
        call_ensures(FileTree::new, (root, disk, changes), r),
    ensures
        r.root@ == root@,
        r.selected == 0,
        r.scroll == 0,
        r@.marked.len() == 0,
        r.anchor is None,
        !r.closed,
        !r.filter_mode,
        match disk.items(root@) {
            Some(items) => lists_items(r@.entries, items, 0, Map::empty()),
            None => r.entries@.len() == 0,
        },
{
    law_new_tree(root@, *disk, changes@);
}

/// A path that is revealed is selected, if an entry has it then.
pub proof fn law_path_revealed(t: &mut FileTree, path: &PathBuf, disk: &Listings, i: int)
    requires
        call_ensures(FileTree::reveal_path, (t, path, disk), ()),
        0 <= i < final(t)@.entries.len(),
        parts(final(t)@.entries[i].path) == parts(path@),
    ensures
        final(t).selected < final(t).entries@.len(),
        parts(final(t)@.entries[final(t).selected as int].path) == parts(path@),
        follows(old(t).scroll as nat, final(t)@),
        final(t)@.marked == old(t)@.marked,
        final(t).closed == old(t).closed,
{
    law_revealed(old(t)@, path@, *disk);
}

/// The down key goes to the next entry, whatever is on the screen; the keys
/// that leave close the tree.
pub proof fn law_key_pressed(
    t: &mut FileTree,
    key: KeyEvent,
    keys: &FileTreeKeys,
    behavior: FileTreeOpenBehavior,
    disk: &Listings,
    r: EventResult,
)
    requires
        call_ensures(FileTree::handle_event, (t, &Event::Key(key), keys, behavior, disk), r),
        !old(t).filter_mode,
        as_bound(key),
    ensures
        !leaves_tree(key) && key != keys.quit && (key == keys.move_down || key.code
            == KeyCode::Down) ==> r is Consumed && final(t).selected == (if old(t).selected + 1
            < old(t).entries@.len() {
            old(t).selected + 1
        } else {
            old(t).selected as int
        }) && final(t)@.entries == old(t)@.entries && final(t)@.marked == old(t)@.marked,
        key == keys.quit && !leaves_tree(key) ==> r is Consumed && final(t).closed
            && final(t)@.entries == old(t)@.entries,
{
    if !leaves_tree(key) && key != keys.quit && (key == keys.move_down || key.code
        == KeyCode::Down) {
        law_key_down(old(t)@, key, *keys, behavior, *disk);
    }
    if key == keys.quit && !leaves_tree(key) {
        law_key_quit(old(t)@, key, *keys, behavior, *disk);
    }
}

/// The directory that a new path is created in: the selected one, or that of
/// the selected file, or the root where nothing is selected.
pub proof fn law_base_dir(t: &FileTree, r: PathBuf)
    requires
        call_ensures(FileTree::create_base_dir, (t,), r),
    ensures
        t.selected >= t.entries@.len() ==> r@ == t.root@,
        t.selected < t.entries@.len() ==> ({
            let e = t.entries@[t.selected as int];
            let p = parts(e.path@);
            &&& e.is_dir ==> r@ == e.path@
            &&& !e.is_dir && p.len() > 0 && p.last() != Part::Root ==> parts(r@) == p.drop_last()
        }),
{
    law_create_beside(t@);
}

/// The entry that is found has the path that was asked for, and so has none
/// where nothing is found.
pub proof fn law_found_entry(t: &FileTree, path: &PathBuf, r: Option<usize>)
    requires
        call_ensures(FileTree::find_entry, (t, path), r),
    ensures
        r matches Some(i) ==> i < t.entries@.len() && parts(t.entries@[i as int].path@) == parts(
            path@,
        ),
        r is None ==> forall|i: int|
            0 <= i < t.entries@.len() ==> parts((#[trigger] t.entries@[i]).path@) != parts(path@),
{
    lemma_entry_at(t@.entries, path@);
    assert forall|i: int| r is None && 0 <= i < t.entries@.len() implies parts(
        (#[trigger] t.entries@[i]).path@,
    ) != parts(path@) by {
        assert(t@.entries[i].path == t.entries@[i].path@);
    }
}

/// The cursor is a block while a filter is typed, and else not shown.
pub proof fn law_cursor_shown(t: &FileTree, r: CursorKind)
    requires
        call_ensures(FileTree::cursor, (t,), r),
    ensures
        r is Block <==> t.filter_mode,
        r is Hidden <==> !t.filter_mode,
{
}

/// The tree takes the height that there is, and the width that is computed for
/// it.
pub proof fn law_size_required(
    t: &FileTree,
    viewport: (u16, u16),
    width: u16,
    r: Option<(u16, u16)>,
)
    requires
        call_ensures(FileTree::compute_width, (t, viewport.0), width),
        call_ensures(FileTree::required_size, (t, viewport), r),
    ensures
        r == Some((width, viewport.1)),
{
}

// ── Marks ────────────────────────────────────────────────────────────────
/// Clearing the marks tells whether there were any, and clears nothing else.
pub proof fn law_marks_cleared(t: &mut FileTree, r: bool)
    requires
        call_ensures(FileTree::clear_marks, (t,), r),
    ensures
        r <==> old(t)@.marked.len() > 0,
        final(t)@.marked.len() == 0,
        final(t).anchor is None,
        final(t)@.entries == old(t)@.entries,
        final(t).selected == old(t).selected,
        final(t).scroll == old(t).scroll,
        final(t).closed == old(t).closed,
{
}

/// A second time there is nothing left to clear.
pub proof fn law_marks_cleared_once(t: &mut FileTree, r: bool, u: &mut FileTree, s: bool)
    requires
        call_ensures(FileTree::clear_marks, (t,), r),
        *old(u) == *final(t),
        call_ensures(FileTree::clear_marks, (u,), s),
    ensures
        !s,
        final(u)@ == old(u)@,
{
    assert(old(u)@.marked =~= Seq::empty());
}

/// A mark stays as long as an entry has its path.
pub proof fn law_marks_retained(t: &mut FileTree, u: Seq<char>)
    requires
        call_ensures(FileTree::retain_marks, (t,), ()),
        increasing(old(t)@.marked),
    ensures
        final(t)@.marked.contains(u) <==> old(t)@.marked.contains(u) && exists|i: int|
            0 <= i < old(t)@.entries.len() && parts((#[trigger] old(t)@.entries[i]).path) == parts(
                u,
            ),
        final(t)@.entries == old(t)@.entries,
        final(t).anchor == old(t).anchor,
        final(t).selected == old(t).selected,
{
    lemma_filter_increasing(old(t)@.marked, |x: Seq<char>| shows(old(t)@.entries, x));
}

// ── Creating ─────────────────────────────────────────────────────────────
/// A name that is typed and confirmed is created in the directory that the
/// tree shows for it, as a file or as a directory as was asked for.
pub proof fn law_created_where_asked(
    t: &FileTree,
    base: PathBuf,
    is_dir: bool,
    behavior: FileTreeOpenBehavior,
    p: &CreatePrompt,
    validated: bool,
    input: &str,
    r: Option<Creation>,
)
    requires
        call_ensures(FileTree::create_base_dir, (t,), base),
        call_ensures(FileTree::create_prompt, (t, is_dir, behavior), *p),
        call_ensures(CreatePrompt::answer, (p, validated, input), r),
        plain_name(input@),
        !is_white_space(input@[0]),
        !is_white_space(input@.last()),
    ensures
        r is Some <==> validated,
        r matches Some(c) ==> {
            &&& parts(c.path@) == parts(base@).push(Part::Name(input@))
            &&& c.file == !is_dir
            &&& is_dir ==> c.directory is Some && c.directory->0@ == c.path@
            &&& !is_dir ==> path_text(c.directory) == parent(c.path@)
        },
{
    let none = Seq::<char>::empty();
    law_create_answer(t@, none, input@, none);
    assert(none + input@ + none =~= input@);
}

/// What follows a creation: a file is opened, and the tree closes behind it
/// where it is set up to; a directory is neither opened nor closes the tree.
pub proof fn law_created_followed_up(
    t: &FileTree,
    is_dir: bool,
    behavior: FileTreeOpenBehavior,
    p: &CreatePrompt,
    r: (bool, bool),
)
    requires
        call_ensures(FileTree::create_prompt, (t, is_dir, behavior), *p),
        call_ensures(CreatePrompt::follow_up, (p,), r),
    ensures
        r.1 <==> !is_dir,
        r.0 <==> !is_dir && behavior is Auto,
{
}

/// What is said of a path that was created, could not be, or could not be
/// opened.
pub proof fn law_messages(path: &PathBuf, err: &str, a: String, b: String, c: String)
    requires
        call_ensures(created_message, (path,), a),
        call_ensures(create_error, (path, err), b),
        call_ensures(open_error, (path, err), c),
    ensures
        a@ == "Created: "@ + path@,
        b@ == "Failed to create "@ + path@ + ": "@ + err@,
        c@ == "Failed to open "@ + path@ + ": "@ + err@,
{
}

// ── Deleting ─────────────────────────────────────────────────────────────
/// Deleting asks about the paths that are selected, all of them and no
/// others, and does not ask where there are none.
pub proof fn law_asked_about_selected(
    t: &FileTree,
    disk: &Disk,
    paths: Vec<PathBuf>,
    r: Option<ConfirmBox>,
)
    requires
        call_ensures(FileTree::selected_paths, (t,), paths),
        call_ensures(FileTree::confirm_delete, (t, disk), r),
    ensures
        r is None <==> paths@.len() == 0,
        r matches Some(b) ==> {
            &&& b.lines@.len() == paths@.len()
            &&& b.on_confirm matches Some(p) && p@.len() == paths@.len() && forall|i: int|
                0 <= i < p@.len() ==> (#[trigger] p@[i])@ == paths@[i]@
        },
{
    let gone = outermost(targets(t@));
    assert(path_texts(paths@).len() == paths@.len());
    if let Some(b) = r {
        law_delete_question(gone, t@.root, *disk, 0);
        assert(texts(b.lines@).len() == b.lines@.len());
        let p = b.on_confirm->0;
        assert(path_texts(p@).len() == p@.len());
        assert forall|i: int| 0 <= i < p@.len() implies (#[trigger] p@[i])@ == paths@[i]@ by {
            assert(path_texts(p@)[i] == path_texts(paths@)[i]);
        }
    }
}

/// A box that is confirmed hands over its paths, once; one that is cancelled
/// hands over nothing; other keys leave it open.
pub proof fn law_box_answered(
    title: String,
    lines: Vec<String>,
    paths: Vec<PathBuf>,
    b: &mut ConfirmBox,
    key: KeyEvent,
    r: ConfirmReply,
    again: &mut ConfirmBox,
    other: KeyEvent,
    s: ConfirmReply,
)
    requires
        call_ensures(ConfirmBox::new, (title, lines, paths), *old(b)),
        call_ensures(ConfirmBox::handle_event, (b, &Event::Key(key)), r),
        *old(again) == *final(b),
        call_ensures(ConfirmBox::handle_event, (again, &Event::Key(other)), s),
    ensures
        key.code == KeyCode::Char('y') || key.code == KeyCode::Enter ==> r
            == ConfirmReply::Confirmed(Some(paths)) && final(b).on_confirm is None,
        key.code == KeyCode::Char('n') || key.code == KeyCode::Char('q') || key.code
            == KeyCode::Esc ==> r == ConfirmReply::Cancelled,
        r is Confirmed || r is Cancelled || (r is Swallowed && *final(b) == *old(b)),
        r is Confirmed && s is Confirmed ==> s == ConfirmReply::Confirmed(None),
        r is Swallowed && s is Confirmed ==> s == ConfirmReply::Confirmed(Some(paths)),
        final(b).title == title,
        final(b).lines == lines,
{
}

/// What is said after deleting: how many items are gone, or, if any could not
/// be deleted, that.
pub proof fn law_deleted_message(
    deleted: usize,
    errors: &Vec<DeleteError>,
    r: Result<String, String>,
)
    requires
        call_ensures(delete_message, (deleted, errors), r),
    ensures
        r is Ok <==> errors@.len() == 0,
        r matches Ok(m) ==> (deleted == 1 ==> m@ == "Deleted 1 item"@) && (deleted != 1 ==> m@
            == "Deleted "@ + decimal(deleted as nat) + " items"@),
        r matches Err(m) ==> (errors@.len() == 1 ==> m@ == "Failed to delete: "@
            + errors@[0].path@ + ": "@ + errors@[0].message@),
{
    reveal_strlit("Deleted ");
    reveal_strlit("Deleted 1 item");
    reveal_strlit(" item");
    reveal_strlit(" items");
    reveal_strlit("s");
    reveal_strlit("");
    if deleted == 1 {
        assert(decimal(1) =~= seq!['1']) by {
            reveal_with_fuel(decimal, 2);
        }
        assert("Deleted "@ + decimal(1) + " item"@ + ""@ =~= "Deleted 1 item"@);
    }
    assert(" item"@ + "s"@ =~= " items"@);
    assert("Deleted "@ + decimal(deleted as nat) + " item"@ + "s"@ =~= "Deleted "@ + decimal(
        deleted as nat,
    ) + (" item"@ + "s"@));
    if errors@.len() == 1 {
        assert(errors@ =~= seq![errors@[0]]);
        law_delete_errors(Seq::empty(), errors@[0]);
        assert("Failed to delete: "@ + (errors@[0].path@ + ": "@ + errors@[0].message@)
            =~= "Failed to delete: "@ + errors@[0].path@ + ": "@ + errors@[0].message@);
    }
}

/// After deleting nothing is marked; after creating the new path is selected,
/// if it is shown.
pub proof fn law_shown_afterwards(
    t: &mut FileTree,
    u: &mut FileTree,
    path: &PathBuf,
    disk: &Listings,
    changes: &Vec<Option<FileChange>>,
)
    requires
        call_ensures(FileTree::show_deleted, (t, disk, changes), ()),
        call_ensures(FileTree::show_created, (u, path, disk, changes), ()),
    ensures
        final(t)@.marked.len() == 0,
        final(t).anchor is None,
        final(t)@.root == old(t)@.root,
        ({
            let s = final(u)@.entries;
            (exists|i: int| 0 <= i < s.len() && parts((#[trigger] s[i]).path) == parts(path@))
                ==> final(u)@.selected < s.len() && parts(s[final(u)@.selected as int].path)
                == parts(path@)
        }),
        final(u)@.root == old(u)@.root,
{
    let bare = TreeView { marked: Seq::empty(), anchor: None, ..old(t)@ };
    let marked = final(t)@.marked;
    if marked.len() > 0 {
        law_refreshed(bare, *disk, changes@, marked[0]);
        assert(marked.contains(marked[0]));
    }
    law_revealed(refreshed(old(u)@, *disk, changes@), path@, *disk);
}

/// The browsing position that is taken down is the one that the tree shows.
pub proof fn law_state_taken(t: &FileTree, r: FileTreeState)
    requires
        call_ensures(FileTree::state, (t,), r),
    ensures
        r.root@ == t.root@,
        r.scroll == t.scroll,
        t.selected < t.entries@.len() ==> r.selected is Some && r.selected->0@
            == t.entries@[t.selected as int].path@,
        t.selected >= t.entries@.len() ==> r.selected is None,
{
    law_state(t@, t@.root);
}

// ── Paths and numbers ────────────────────────────────────────────────────
/// A name that is joined to a path is the name of the result, the path lies
/// above it, and seen from the path only the name is left.
pub proof fn law_name_joined(
    base: &PathBuf,
    name: &str,
    r: &PathBuf,
    above: Option<PathBuf>,
    last: Option<String>,
    rest: Option<PathBuf>,
)
    requires
        call_ensures(PathBuf::join, (base, name), *r),
        call_ensures(PathBuf::parent, (r,), above),
        call_ensures(PathBuf::file_name, (r,), last),
        call_ensures(PathBuf::strip_prefix, (r, base), rest),
        plain_name(name@),
    ensures
        parts(r@) == parts(base@).push(Part::Name(name@)),
        above matches Some(p) && parts(p@) == parts(base@),
        last matches Some(n) && n@ == name@,
        rest matches Some(p) && parts(p@) == seq![Part::Name(name@)],
{
    law_joined(base@, name@);
    law_file_name(r@);
    law_relative(r@, base@);
    let p = parts(base@);
    assert(parts(r@).take(p.len() as int) =~= p);
    assert(parts(r@).skip(p.len() as int) =~= seq![Part::Name(name@)]);
}

/// What was put into a set of paths is in it until it is taken out; both tell
/// whether they changed anything.
pub proof fn law_set_changed(
    s: &mut PathSet,
    path: PathBuf,
    new: bool,
    u: &mut PathSet,
    gone: bool,
    other: &PathBuf,
    before: bool,
    between: bool,
    after: bool,
)
    requires
        old(s).wf(),
        call_ensures(PathSet::contains, (&*old(s), other), before),
        call_ensures(PathSet::insert, (s, path), new),
        call_ensures(PathSet::contains, (&*final(s), other), between),
        *old(u) == *final(s),
        call_ensures(PathSet::remove, (u, &path), gone),
        call_ensures(PathSet::contains, (&*final(u), other), after),
    ensures
        between <==> before || parts(other@) == parts(path@),
        after <==> before && parts(other@) != parts(path@),
        gone,
        parts(other@) == parts(path@) ==> new == !before,
{
    law_path_set(old(s)@, path@, other@);
    law_path_set(old(s)@, path@, path@);
    law_path_set(final(s)@, path@, other@);
}

/// A number that is written out is read back.
pub proof fn law_number_read_back(n: usize, s: String, c: &Vec<char>, r: Option<usize>)
    requires
        call_ensures(to_decimal, (n,), s),
        c@ == s@,
        call_ensures(parse_number, (c, 0usize, c@.len() as usize), r),
        c@.len() <= usize::MAX,
    ensures
        r == Some(n),
{
    law_decimal(n as nat, 0);
    assert(c@.subrange(0, c@.len() as int) =~= c@);
}

} // verus!

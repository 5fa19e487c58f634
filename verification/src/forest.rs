//! What the entries of a file tree show: the directories on disk, opened up
//! as far as the user has expanded them.
use crate::entry::{
    children, entries_for, fresh_entry, items_of, lemma_children, lemma_name_order, name_order,
    sort_by_name, status_of, DirItem, EntryView, GitStatus, ItemView, Listings,
};
use crate::file_tree::{
    collapse_at, collapsed_at, count_order, entry_at, expand_all, expand_at, expanded_paths,
    lemma_collapsed_at, lemma_entry_at, lemma_run_deeper, parents_first, restored, run_deeper,
    shown_in, state_of, toggle_at, TreeView,
};
use crate::events::{event_handled, key_event, selection_valid};
use crate::key::{canonical, Event, FileTreeKeys, FileTreeOpenBehavior, KeyEvent};
use crate::navigate::{
    dir_above, git_status_of, left_dir, lemma_dir_above, loaded, opened, refreshed, scrolled,
    shows, FileChange,
};
use crate::path::{parts, Part, PathBuf};
use crate::sort::{lemma_stable_sort, strict_weak};
use vstd::prelude::*;

verus! {

/// Entries with what they show below them: an entry, the forest that it
/// shows, and the entries that follow on the same level.
pub enum Forest {
    Empty,
    Node { entry: EntryView, kids: Box<Forest>, next: Box<Forest> },
}

/// The entries of a forest, from top to bottom.
pub open spec fn flat(f: Forest) -> Seq<EntryView>
    decreases f,
{
    match f {
        Forest::Empty => Seq::empty(),
        Forest::Node { entry, kids, next } => seq![entry] + flat(*kids) + flat(*next),
    }
}

/// The entries on the first level of a forest, as if they were collapsed.
pub open spec fn tops(f: Forest) -> Seq<EntryView>
    decreases f,
{
    match f {
        Forest::Empty => Seq::empty(),
        Forest::Node { entry, kids, next } => seq![EntryView { expanded: false, ..entry }] + tops(
            *next,
        ),
    }
}

/// Whether every expanded entry is a directory that shows what it holds on
/// disk, and no other entry shows anything.
pub open spec fn fits(f: Forest, git: Map<Seq<Part>, GitStatus>, disk: Listings) -> bool
    decreases f,
{
    match f {
        Forest::Empty => true,
        Forest::Node { entry, kids, next } => {
            &&& if entry.expanded {
                entry.is_dir && tops(*kids) == shown_in(entry.path, entry.depth + 1, git, disk)
            } else {
                *kids == Forest::Empty
            }
            &&& fits(*kids, git, disk)
            &&& fits(*next, git, disk)
        },
    }
}

/// Whether the entries of `v` show the directory at its root, and whatever
/// directories are expanded, as they are on disk.
pub open spec fn displays(v: TreeView, disk: Listings) -> bool {
    exists|f: Forest| #[trigger]
        flat(f) == v.entries && tops(f) == shown_in(v.root, 0, Map::empty(), disk) && fits(
            f,
            v.git_status,
            disk,
        )
}

/// Whether each item of a directory lies directly in it, and no two items
/// have the same path.
pub open spec fn listing_valid(items: Seq<ItemView>, dir: Seq<char>) -> bool {
    &&& forall|k: int|
        0 <= k < items.len() ==> parts((#[trigger] items[k]).path).len() == parts(dir).len() + 1
            && parts(items[k].path).drop_last() == parts(dir)
    &&& forall|j: int, k: int|
        0 <= j < k < items.len() ==> parts((#[trigger] items[j]).path) != parts(
            (#[trigger] items[k]).path,
        )
}

/// Whether the contents of directories are such as a file system gives.
pub open spec fn disk_valid(disk: Listings) -> bool {
    forall|t: Seq<char>| #[trigger]
        disk.items(t) is Some ==> listing_valid(disk.items(t)->0, t)
}

/// Whether each entry lies directly in the directory `base`, and no two have
/// the same path.
spec fn siblings(s: Seq<EntryView>, base: Seq<Part>) -> bool {
    &&& forall|k: int|
        0 <= k < s.len() ==> parts((#[trigger] s[k]).path).len() == base.len() + 1 && parts(
            s[k].path,
        ).drop_last() == base
    &&& forall|j: int, k: int|
        0 <= j < k < s.len() ==> parts((#[trigger] s[j]).path) != parts((#[trigger] s[k]).path)
}

/// Whether an entry on the first level has the path `p`.
spec fn has_top(f: Forest, p: Seq<Part>) -> bool
    decreases f,
{
    match f {
        Forest::Empty => false,
        Forest::Node { entry, kids, next } => parts(entry.path) == p || has_top(*next, p),
    }
}

/// Whether the paths of a forest mirror its shape, below `base`.
spec fn rooted(f: Forest, base: Seq<Part>) -> bool
    decreases f,
{
    match f {
        Forest::Empty => true,
        Forest::Node { entry, kids, next } => {
            &&& parts(entry.path).len() == base.len() + 1
            &&& parts(entry.path).drop_last() == base
            &&& !has_top(*next, parts(entry.path))
            &&& rooted(*kids, parts(entry.path))
            &&& rooted(*next, base)
        },
    }
}

/// Whether `p` lies somewhere below `base`.
spec fn below(p: Seq<Part>, base: Seq<Part>) -> bool {
    p.len() > base.len() && p.take(base.len() as int) == base
}

/// `f` with only those directories left expanded that are in `open`.
spec fn prune(f: Forest, open: Set<Seq<Part>>) -> Forest
    decreases f,
{
    match f {
        Forest::Empty => Forest::Empty,
        Forest::Node { entry, kids, next } => if entry.expanded && open.contains(
            parts(entry.path),
        ) {
            Forest::Node {
                entry,
                kids: Box::new(prune(*kids, open)),
                next: Box::new(prune(*next, open)),
            }
        } else {
            Forest::Node {
                entry: EntryView { expanded: false, ..entry },
                kids: Box::new(Forest::Empty),
                next: Box::new(prune(*next, open)),
            }
        },
    }
}

/// Whether an expanded entry of `f` has the path `p`.
spec fn opens(f: Forest, p: Seq<Part>) -> bool
    decreases f,
{
    match f {
        Forest::Empty => false,
        Forest::Node { entry, kids, next } => (entry.expanded && parts(entry.path) == p) || opens(
            *kids,
            p,
        ) || opens(*next, p),
    }
}

/// Whether an expanded entry of `f` has the path `p`, and everything that it
/// is shown below is in `open`.
spec fn reached(f: Forest, p: Seq<Part>, open: Set<Seq<Part>>) -> bool
    decreases f,
{
    match f {
        Forest::Empty => false,
        Forest::Node { entry, kids, next } => {
            ||| entry.expanded && parts(entry.path) == p
            ||| entry.expanded && open.contains(parts(entry.path)) && reached(*kids, p, open)
            ||| reached(*next, p, open)
        },
    }
}

// ── What a directory shows ───────────────────────────────────────────────
/// Entries made of items with distinct paths have distinct paths.
proof fn lemma_entries_distinct(
    items: Seq<ItemView>,
    is_dir: bool,
    depth: nat,
    git: Map<Seq<Part>, GitStatus>,
)
    requires
        forall|j: int, k: int|
            0 <= j < k < items.len() ==> parts((#[trigger] items[j]).path) != parts(
                (#[trigger] items[k]).path,
            ),
    ensures
        ({
            let s = entries_for(items, is_dir, depth, git);
            &&& forall|j: int, k: int|
                0 <= j < k < s.len() ==> parts((#[trigger] s[j]).path) != parts(
                    (#[trigger] s[k]).path,
                )
            &&& forall|j: int|
                0 <= j < s.len() ==> (#[trigger] s[j]).is_dir == is_dir && exists|k: int|
                    0 <= k < items.len() && (#[trigger] items[k]).path == s[j].path
                        && items[k].is_dir == is_dir
        }),
    decreases items.len(),
{
    if items.len() > 0 {
        let before = items.drop_last();
        lemma_entries_distinct(before, is_dir, depth, git);
        let p = entries_for(before, is_dir, depth, git);
        let s = entries_for(items, is_dir, depth, git);
        assert forall|j: int| 0 <= j < s.len() implies (#[trigger] s[j]).is_dir == is_dir
            && exists|k: int|
            0 <= k < items.len() && (#[trigger] items[k]).path == s[j].path && items[k].is_dir
                == is_dir by {
            if j < p.len() {
                assert(s[j] == p[j]);
                let k = choose|k: int|
                    0 <= k < before.len() && (#[trigger] before[k]).path == p[j].path
                        && before[k].is_dir == is_dir;
                assert(items[k] == before[k]);
            } else {
                let k = items.len() - 1;
                assert(items[k].path == s[j].path);
            }
        }
        assert forall|j: int, k: int| 0 <= j < k < s.len() implies parts(
            (#[trigger] s[j]).path,
        ) != parts((#[trigger] s[k]).path) by {
            assert(s[j] == p[j]);
            if k < p.len() {
                assert(s[k] == p[k]);
            } else {
                let m = choose|m: int|
                    0 <= m < before.len() && (#[trigger] before[m]).path == p[j].path
                        && before[m].is_dir == is_dir;
                assert(items[m] == before[m]);
                assert(s[k].path == items[items.len() - 1].path);
            }
        }
    }
}

/// Sorting keeps paths distinct.
proof fn lemma_sorted_distinct(s: Seq<EntryView>)
    requires
        forall|j: int, k: int|
            0 <= j < k < s.len() ==> parts((#[trigger] s[j]).path) != parts((#[trigger] s[k]).path),
    ensures
        ({
            let r = sort_by_name(s);
            &&& r.len() == s.len()
            &&& forall|j: int, k: int|
                0 <= j < k < r.len() ==> parts((#[trigger] r[j]).path) != parts(
                    (#[trigger] r[k]).path,
                )
            &&& forall|e: EntryView| #[trigger] r.contains(e) == s.contains(e)
        }),
{
    broadcast use vstd::seq_lib::group_to_multiset_ensures;

    lemma_name_order();
    lemma_stable_sort(name_order(), s);
    let r = sort_by_name(s);
    assert forall|e: EntryView| #[trigger] r.contains(e) == s.contains(e) by {
        assert(r.to_multiset().contains(e) == s.to_multiset().contains(e));
    }
    assert(s.no_duplicates());
    s.lemma_multiset_has_no_duplicates();
    r.lemma_multiset_has_no_duplicates_conv();
    assert forall|j: int, k: int| 0 <= j < k < r.len() implies parts((#[trigger] r[j]).path)
        != parts((#[trigger] r[k]).path) by {
        assert(r.contains(r[j]) && r.contains(r[k]));
        let a = choose|a: int| 0 <= a < s.len() && s[a] == r[j];
        let b = choose|b: int| 0 <= b < s.len() && s[b] == r[k];
        assert(r[j] != r[k]);
        assert(a != b);
        if a < b {
        } else {
            assert(parts(s[b].path) != parts(s[a].path));
        }
    }
}

/// What a directory shows lies directly in it.
proof fn lemma_shown_siblings(
    dir: Seq<char>,
    depth: nat,
    git: Map<Seq<Part>, GitStatus>,
    disk: Listings,
)
    requires
        disk_valid(disk),
    ensures
        siblings(shown_in(dir, depth, git, disk), parts(dir)),
{
    if let Some(items) = disk.items(dir) {
        assert(listing_valid(items, dir));
        let s = children(items, depth, git);
        let d = entries_for(items, true, depth, git);
        let f = entries_for(items, false, depth, git);
        lemma_children(items, depth, git);
        assert forall|k: int| 0 <= k < s.len() implies parts((#[trigger] s[k]).path).len() == parts(
            dir,
        ).len() + 1 && parts(s[k].path).drop_last() == parts(dir) by {
            assert(s.contains(s[k]));
        }
        lemma_entries_distinct(items, true, depth, git);
        lemma_entries_distinct(items, false, depth, git);
        lemma_sorted_distinct(d);
        lemma_sorted_distinct(f);
        let (sd, sf) = (sort_by_name(d), sort_by_name(f));
        assert(s == sd + sf);
        assert forall|j: int, k: int| 0 <= j < k < s.len() implies parts(
            (#[trigger] s[j]).path,
        ) != parts((#[trigger] s[k]).path) by {
            if k < sd.len() {
                assert(s[j] == sd[j] && s[k] == sd[k]);
            } else if j >= sd.len() {
                assert(s[j] == sf[j - sd.len()] && s[k] == sf[k - sd.len()]);
            } else {
                assert(s[j] == sd[j] && s[k] == sf[k - sd.len()]);
                assert(sd.contains(s[j]) && sf.contains(s[k]));
                let a = choose|a: int| 0 <= a < d.len() && d[a] == s[j];
                let b = choose|b: int| 0 <= b < f.len() && f[b] == s[k];
                let m = choose|m: int|
                    0 <= m < items.len() && (#[trigger] items[m]).path == d[a].path
                        && items[m].is_dir == true;
                let n = choose|n: int|
                    0 <= n < items.len() && (#[trigger] items[n]).path == f[b].path
                        && items[n].is_dir == false;
                assert(m != n);
                if m < n {
                } else {
                    assert(parts(items[n].path) != parts(items[m].path));
                }
            }
        }
    }
}

// ── Paths mirror the shape ───────────────────────────────────────────────
proof fn lemma_not_top(f: Forest, p: Seq<Part>)
    requires
        forall|k: int| 0 <= k < tops(f).len() ==> parts((#[trigger] tops(f)[k]).path) != p,
    ensures
        !has_top(f, p),
    decreases f,
{
    if let Forest::Node { entry, kids, next } = f {
        assert(tops(f)[0].path == entry.path);
        assert forall|k: int| 0 <= k < tops(*next).len() implies parts(
            (#[trigger] tops(*next)[k]).path,
        ) != p by {
            assert(tops(f)[k + 1] == tops(*next)[k]);
        }
        lemma_not_top(*next, p);
    }
}

proof fn lemma_rooted(
    f: Forest,
    base: Seq<Part>,
    git: Map<Seq<Part>, GitStatus>,
    disk: Listings,
)
    requires
        disk_valid(disk),
        fits(f, git, disk),
        siblings(tops(f), base),
    ensures
        rooted(f, base),
    decreases f,
{
    if let Forest::Node { entry, kids, next } = f {
        let s = tops(f);
        assert(s[0].path == entry.path);
        assert forall|k: int| 0 <= k < tops(*next).len() implies (#[trigger] tops(*next)[k])
            == s[k + 1] by {}
        assert forall|k: int| 0 <= k < tops(*next).len() implies parts(
            (#[trigger] tops(*next)[k]).path,
        ) != parts(entry.path) by {
            assert(parts(s[0].path) != parts(s[k + 1].path));
        }
        lemma_not_top(*next, parts(entry.path));
        assert(siblings(tops(*next), base)) by {
            let t = tops(*next);
            assert forall|k: int| 0 <= k < t.len() implies parts((#[trigger] t[k]).path).len()
                == base.len() + 1 && parts(t[k].path).drop_last() == base by {
                assert(t[k] == s[k + 1]);
            }
            assert forall|j: int, k: int| 0 <= j < k < t.len() implies parts(
                (#[trigger] t[j]).path,
            ) != parts((#[trigger] t[k]).path) by {
                assert(t[j] == s[j + 1] && t[k] == s[k + 1]);
            }
        }
        lemma_rooted(*next, base, git, disk);
        if entry.expanded {
            lemma_shown_siblings(entry.path, entry.depth + 1, git, disk);
            lemma_rooted(*kids, parts(entry.path), git, disk);
        } else {
            assert(rooted(*kids, parts(entry.path)));
        }
    }
}

/// Every entry of a forest lies below one on its first level, or is one.
proof fn lemma_flat_below(f: Forest, base: Seq<Part>)
    requires
        rooted(f, base),
    ensures
        forall|i: int|
            0 <= i < flat(f).len() ==> below(parts((#[trigger] flat(f)[i]).path), base) && has_top(
                f,
                parts(flat(f)[i].path).take(base.len() as int + 1),
            ),
    decreases f,
{
    if let Forest::Node { entry, kids, next } = f {
        let q = parts(entry.path);
        lemma_flat_below(*kids, q);
        lemma_flat_below(*next, base);
        let (a, b) = (flat(*kids), flat(*next));
        assert forall|i: int| 0 <= i < flat(f).len() implies below(
            parts((#[trigger] flat(f)[i]).path),
            base,
        ) && has_top(f, parts(flat(f)[i].path).take(base.len() as int + 1)) by {
            let p = parts(flat(f)[i].path);
            if i == 0 {
                assert(p.take(base.len() as int + 1) =~= p);
                assert(p.take(base.len() as int) =~= p.drop_last());
            } else if i < 1 + a.len() {
                assert(flat(f)[i] == a[i - 1]);
                assert(p.take(q.len() as int) == q);
                assert(p.take(base.len() as int + 1) =~= q);
                assert(p.take(base.len() as int) =~= q.drop_last());
            } else {
                assert(flat(f)[i] == b[i - 1 - a.len()]);
            }
        }
    }
}

/// No two entries have the same path.
proof fn lemma_flat_distinct(f: Forest, base: Seq<Part>)
    requires
        rooted(f, base),
    ensures
        forall|i: int, j: int|
            0 <= i < j < flat(f).len() ==> parts((#[trigger] flat(f)[i]).path) != parts(
                (#[trigger] flat(f)[j]).path,
            ),
    decreases f,
{
    if let Forest::Node { entry, kids, next } = f {
        let q = parts(entry.path);
        lemma_flat_distinct(*kids, q);
        lemma_flat_distinct(*next, base);
        lemma_flat_below(*kids, q);
        lemma_flat_below(*next, base);
        let (a, b) = (flat(*kids), flat(*next));
        let s = flat(f);
        assert forall|i: int, j: int| 0 <= i < j < s.len() implies parts((#[trigger] s[i]).path)
            != parts((#[trigger] s[j]).path) by {
            let p = parts(s[i].path);
            if j < 1 + a.len() {
                assert(s[j] == a[j - 1]);
                if i > 0 {
                    assert(s[i] == a[i - 1]);
                }
            } else {
                assert(s[j] == b[j - 1 - a.len()]);
                if i == 0 {
                    assert(p.take(base.len() as int + 1) =~= q);
                } else if i < 1 + a.len() {
                    assert(s[i] == a[i - 1]);
                    assert(p.take(base.len() as int + 1) =~= q) by {
                        assert(p.take(q.len() as int) == q);
                    }
                } else {
                    assert(s[i] == b[i - 1 - a.len()]);
                }
            }
        }
    }
}

// ── Expanding anew ───────────────────────────────────────────────────────
proof fn lemma_prune_rooted(f: Forest, base: Seq<Part>, open: Set<Seq<Part>>)
    requires
        rooted(f, base),
    ensures
        rooted(prune(f, open), base),
        forall|p: Seq<Part>| #[trigger] has_top(prune(f, open), p) == has_top(f, p),
    decreases f,
{
    if let Forest::Node { entry, kids, next } = f {
        lemma_prune_rooted(*kids, parts(entry.path), open);
        lemma_prune_rooted(*next, base, open);
        assert(rooted(Forest::Empty, parts(entry.path)));
        assert forall|p: Seq<Part>| #[trigger] has_top(prune(f, open), p) == has_top(f, p) by {
            assert(has_top(prune(*next, open), p) == has_top(*next, p));
        }
    }
}

/// A path that does not belong below the forest makes no difference to it.
proof fn lemma_prune_elsewhere(
    f: Forest,
    base: Seq<Part>,
    open: Set<Seq<Part>>,
    p: Seq<Part>,
)
    requires
        rooted(f, base),
        !(below(p, base) && has_top(f, p.take(base.len() as int + 1))),
    ensures
        prune(f, open.insert(p)) == prune(f, open),
    decreases f,
{
    if let Forest::Node { entry, kids, next } = f {
        let q = parts(entry.path);
        if p == q {
            assert(p.take(base.len() as int + 1) =~= q);
            assert(p.take(base.len() as int) =~= q.drop_last());
        }
        if below(p, q) {
            assert(p.take(base.len() as int + 1) =~= q);
            assert(p.take(base.len() as int) =~= q.drop_last());
        }
        lemma_prune_elsewhere(*kids, q, open, p);
        lemma_prune_elsewhere(*next, base, open, p);
    }
}

/// With nothing of it expanded, a forest is its first level.
proof fn lemma_prune_shallow(f: Forest, base: Seq<Part>, open: Set<Seq<Part>>)
    requires
        rooted(f, base),
        forall|p: Seq<Part>| #[trigger] open.contains(p) ==> p.len() <= base.len(),
    ensures
        flat(prune(f, open)) == tops(f),
    decreases f,
{
    if let Forest::Node { entry, kids, next } = f {
        lemma_prune_shallow(*next, base, open);
        assert(flat(Forest::Empty) =~= Seq::empty());
        assert(flat(prune(f, open)) =~= tops(f));
    }
}

/// With everything of it expanded, a forest is itself.
proof fn lemma_prune_all(
    f: Forest,
    open: Set<Seq<Part>>,
    git: Map<Seq<Part>, GitStatus>,
    disk: Listings,
)
    requires
        fits(f, git, disk),
        forall|p: Seq<Part>| #[trigger] opens(f, p) ==> open.contains(p),
    ensures
        prune(f, open) == f,
    decreases f,
{
    if let Forest::Node { entry, kids, next } = f {
        assert forall|p: Seq<Part>| #[trigger] opens(*kids, p) implies open.contains(p) by {
            assert(opens(f, p));
        }
        assert forall|p: Seq<Part>| #[trigger] opens(*next, p) implies open.contains(p) by {
            assert(opens(f, p));
        }
        lemma_prune_all(*kids, open, git, disk);
        lemma_prune_all(*next, open, git, disk);
        if entry.expanded {
            assert(opens(f, parts(entry.path)));
        }
    }
}

proof fn lemma_reached_below(f: Forest, base: Seq<Part>, p: Seq<Part>, open: Set<Seq<Part>>)
    requires
        rooted(f, base),
        reached(f, p, open),
    ensures
        below(p, base),
        has_top(f, p.take(base.len() as int + 1)),
    decreases f,
{
    if let Forest::Node { entry, kids, next } = f {
        let q = parts(entry.path);
        if p == q {
            assert(p.take(base.len() as int + 1) =~= q);
            assert(p.take(base.len() as int) =~= q.drop_last());
        } else if reached(*next, p, open) {
            lemma_reached_below(*next, base, p, open);
        } else {
            lemma_reached_below(*kids, q, p, open);
            assert(p.take(base.len() as int + 1) =~= q) by {
                assert(p.take(q.len() as int) == q);
            }
            assert(p.take(base.len() as int) =~= q.drop_last());
        }
    }
}

/// Expanding an entry leaves what stands before it alone.
proof fn lemma_expand_behind(
    front: Seq<EntryView>,
    s: Seq<EntryView>,
    i: int,
    shown: Seq<EntryView>,
)
    requires
        0 <= i < s.len(),
    ensures
        (front + s)[front.len() + i] == s[i],
        expand_at(front + s, front.len() + i, shown) == front + expand_at(s, i, shown),
{
    assert((front + s).take(front.len() + i) =~= front + s.take(i));
    assert((front + s).skip(front.len() + i + 1) =~= s.skip(i + 1));
    assert(expand_at(front + s, front.len() + i, shown) =~= front + expand_at(s, i, shown));
}

/// Expanding an entry leaves what stands behind alone.
proof fn lemma_expand_before(
    s: Seq<EntryView>,
    back: Seq<EntryView>,
    i: int,
    shown: Seq<EntryView>,
)
    requires
        0 <= i < s.len(),
    ensures
        (s + back)[i] == s[i],
        expand_at(s + back, i, shown) == expand_at(s, i, shown) + back,
{
    assert((s + back).take(i) =~= s.take(i));
    assert((s + back).skip(i + 1) =~= s.skip(i + 1) + back);
    assert(expand_at(s + back, i, shown) =~= expand_at(s, i, shown) + back);
}

/// Expanding one more directory, all of whose parents are expanded already.
proof fn lemma_expand_one(
    f: Forest,
    base: Seq<Part>,
    open: Set<Seq<Part>>,
    p: Seq<Part>,
    git: Map<Seq<Part>, GitStatus>,
    disk: Listings,
) -> (i: int)
    requires
        rooted(f, base),
        fits(f, git, disk),
        reached(f, p, open),
        !open.contains(p),
        forall|q: Seq<Part>| #[trigger] open.contains(q) ==> q.len() <= p.len(),
    ensures
        ({
            let s = flat(prune(f, open));
            &&& 0 <= i < s.len()
            &&& s[i].is_dir
            &&& !s[i].expanded
            &&& parts(s[i].path) == p
            &&& expand_at(s, i, shown_in(s[i].path, s[i].depth + 1, git, disk)) == flat(
                prune(f, open.insert(p)),
            )
        }),
    decreases f,
{
    let more = open.insert(p);
    match f {
        Forest::Empty => { 0 },
        Forest::Node { entry, kids, next } => {
            let q = parts(entry.path);
            let s = flat(prune(f, open));
            let (a, b) = (flat(prune(*kids, open)), flat(prune(*next, open)));
            assert(flat(Forest::Empty) =~= Seq::empty());
            if entry.expanded && q == p {
                assert(p.take(base.len() as int + 1) =~= q);
                lemma_prune_elsewhere(*next, base, open, p);
                lemma_prune_shallow(*kids, q, more);
                let shown = shown_in(entry.path, entry.depth + 1, git, disk);
                assert(flat(prune(*kids, more)) == shown);
                assert(s =~= seq![EntryView { expanded: false, ..entry }] + b);
                assert(flat(prune(f, more)) == seq![entry] + shown + b);
                assert(expand_at(s, 0, shown) =~= seq![entry] + shown + b) by {
                    assert(EntryView { expanded: true, ..s[0] } == entry);
                    assert(s.skip(1) =~= b);
                }
                0
            } else if entry.expanded && open.contains(q) && reached(*kids, p, open) {
                lemma_reached_below(*kids, q, p, open);
                assert(p.take(base.len() as int + 1) =~= q) by {
                    assert(p.take(q.len() as int) == q);
                }
                lemma_prune_elsewhere(*next, base, open, p);
                let i = lemma_expand_one(*kids, q, open, p, git, disk);
                let shown = shown_in(a[i].path, a[i].depth + 1, git, disk);
                assert(s == seq![entry] + a + b);
                lemma_expand_behind(seq![entry], a, i, shown);
                lemma_expand_before(seq![entry] + a, b, i + 1, shown);
                i + 1
            } else {
                lemma_reached_below(*next, base, p, open);
                assert(q.take(base.len() as int + 1) =~= q);
                assert(p != q);
                if below(p, q) {
                    assert(p.take(base.len() as int + 1) =~= q) by {
                        assert(p.take(q.len() as int) == q);
                    }
                }
                lemma_prune_elsewhere(*kids, q, open, p);
                let i = lemma_expand_one(*next, base, open, p, git, disk);
                let shown = shown_in(b[i].path, b[i].depth + 1, git, disk);
                let front = s.take(s.len() - b.len());
                assert(s =~= front + b);
                let k = i + front.len();
                lemma_expand_behind(front, b, i, shown);
                assert(flat(prune(f, more)) =~= front + flat(prune(*next, more)));
                k
            }
        },
    }
}

/// What is expanded is found with all parents of it expanded, if those with
/// shorter paths are.
proof fn lemma_reached(
    f: Forest,
    base: Seq<Part>,
    p: Seq<Part>,
    open: Set<Seq<Part>>,
    git: Map<Seq<Part>, GitStatus>,
    disk: Listings,
)
    requires
        rooted(f, base),
        fits(f, git, disk),
        opens(f, p),
        forall|q: Seq<Part>| #[trigger] opens(f, q) && q.len() < p.len() ==> open.contains(q),
    ensures
        reached(f, p, open),
    decreases f,
{
    if let Forest::Node { entry, kids, next } = f {
        let q = parts(entry.path);
        assert forall|r: Seq<Part>| #[trigger]
            opens(*kids, r) && r.len() < p.len() implies open.contains(r) by {
            assert(opens(f, r));
        }
        assert forall|r: Seq<Part>| #[trigger]
            opens(*next, r) && r.len() < p.len() implies open.contains(r) by {
            assert(opens(f, r));
        }
        if opens(*next, p) {
            lemma_reached(*next, base, p, open, git, disk);
        } else if opens(*kids, p) {
            lemma_opens_below(*kids, q, p);
            assert(opens(f, q));
            lemma_reached(*kids, q, p, open, git, disk);
        }
    }
}

proof fn lemma_opens_below(f: Forest, base: Seq<Part>, p: Seq<Part>)
    requires
        rooted(f, base),
        opens(f, p),
    ensures
        p.len() > base.len(),
    decreases f,
{
    if let Forest::Node { entry, kids, next } = f {
        if opens(*next, p) {
            lemma_opens_below(*next, base, p);
        } else if opens(*kids, p) {
            lemma_opens_below(*kids, parts(entry.path), p);
        }
    }
}

/// The expanded entries of a forest are those that its list of entries has.
proof fn lemma_opens_flat(
    f: Forest,
    p: Seq<Part>,
    git: Map<Seq<Part>, GitStatus>,
    disk: Listings,
)
    requires
        fits(f, git, disk),
    ensures
        opens(f, p) <==> exists|i: int|
            0 <= i < flat(f).len() && (#[trigger] flat(f)[i]).expanded && flat(f)[i].is_dir
                && parts(flat(f)[i].path) == p,
    decreases f,
{
    if let Forest::Node { entry, kids, next } = f {
        lemma_opens_flat(*kids, p, git, disk);
        lemma_opens_flat(*next, p, git, disk);
        let (s, a, b) = (flat(f), flat(*kids), flat(*next));
        if opens(f, p) {
            if opens(*next, p) {
                let i = choose|i: int|
                    0 <= i < b.len() && (#[trigger] b[i]).expanded && b[i].is_dir && parts(
                        b[i].path,
                    ) == p;
                assert(s[1 + a.len() + i] == b[i]);
            } else if opens(*kids, p) {
                let i = choose|i: int|
                    0 <= i < a.len() && (#[trigger] a[i]).expanded && a[i].is_dir && parts(
                        a[i].path,
                    ) == p;
                assert(s[1 + i] == a[i]);
            } else {
                assert(s[0] == entry);
            }
        }
        if exists|i: int|
            0 <= i < s.len() && (#[trigger] s[i]).expanded && s[i].is_dir && parts(s[i].path)
                == p {
            let i = choose|i: int|
                0 <= i < s.len() && (#[trigger] s[i]).expanded && s[i].is_dir && parts(s[i].path)
                    == p;
            if i == 0 {
            } else if i < 1 + a.len() {
                assert(a[i - 1] == s[i]);
            } else {
                assert(b[i - 1 - a.len()] == s[i]);
            }
        }
    }
}

/// The paths of expanded directories come from different entries.
proof fn lemma_expanded_paths(s: Seq<EntryView>)
    requires
        forall|i: int, j: int|
            0 <= i < j < s.len() ==> parts((#[trigger] s[i]).path) != parts((#[trigger] s[j]).path),
    ensures
        ({
            let e = expanded_paths(s);
            &&& forall|i: int, j: int|
                0 <= i < j < e.len() ==> parts(#[trigger] e[i]) != parts(#[trigger] e[j])
            &&& forall|k: int|
                0 <= k < e.len() ==> exists|i: int|
                    0 <= i < s.len() && (#[trigger] s[i]).expanded && s[i].is_dir && s[i].path
                        == #[trigger] e[k]
            &&& forall|i: int|
                0 <= i < s.len() && (#[trigger] s[i]).expanded && s[i].is_dir ==> e.contains(
                    s[i].path,
                )
        }),
    decreases s.len(),
{
    if s.len() > 0 {
        let t = s.drop_last();
        lemma_expanded_paths(t);
        let (e, d) = (expanded_paths(s), expanded_paths(t));
        let last = s.len() - 1;
        assert forall|k: int| 0 <= k < e.len() implies exists|i: int|
            0 <= i < s.len() && (#[trigger] s[i]).expanded && s[i].is_dir && s[i].path
                == #[trigger] e[k] by {
            if k < d.len() {
                assert(e[k] == d[k]);
                let i = choose|i: int|
                    0 <= i < t.len() && (#[trigger] t[i]).expanded && t[i].is_dir && t[i].path
                        == d[k];
                assert(s[i] == t[i]);
            } else {
                assert(s[last].path == e[k]);
            }
        }
        assert forall|i: int, j: int| 0 <= i < j < e.len() implies parts(#[trigger] e[i]) != parts(
            #[trigger] e[j],
        ) by {
            assert(e[i] == d[i]);
            if j < d.len() {
                assert(e[j] == d[j]);
            } else {
                let k = choose|k: int|
                    0 <= k < t.len() && (#[trigger] t[k]).expanded && t[k].is_dir && t[k].path
                        == d[i];
                assert(s[k] == t[k]);
                assert(s[last].path == e[j]);
            }
        }
        assert forall|i: int| 0 <= i < s.len() && (#[trigger] s[i]).expanded
            && s[i].is_dir implies e.contains(s[i].path) by {
            if i < last {
                assert(t[i] == s[i]);
                assert(d.contains(t[i].path));
                let k = choose|k: int| 0 <= k < d.len() && d[k] == t[i].path;
                assert(e[k] == s[i].path);
            } else {
                assert(e[d.len() as int] == s[i].path);
            }
        }
    }
}

/// The component sequences of the first `k` paths.
spec fn first_parts(s: Seq<Seq<char>>, k: int) -> Set<Seq<Part>>
    decreases k,
{
    if k <= 0 {
        Set::empty()
    } else {
        first_parts(s, k - 1).insert(parts(s[k - 1]))
    }
}

proof fn lemma_first_parts(s: Seq<Seq<char>>, k: int)
    requires
        0 <= k <= s.len(),
    ensures
        forall|p: Seq<Part>| #[trigger]
            first_parts(s, k).contains(p) <==> exists|i: int|
                0 <= i < k && parts(#[trigger] s[i]) == p,
    decreases k,
{
    if k > 0 {
        lemma_first_parts(s, k - 1);
        assert forall|p: Seq<Part>| #[trigger] first_parts(s, k).contains(p) <==> exists|i: int|
            0 <= i < k && parts(#[trigger] s[i]) == p by {
            if first_parts(s, k).contains(p) {
                if parts(s[k - 1]) != p {
                    assert(first_parts(s, k - 1).contains(p));
                }
            }
            if exists|i: int| 0 <= i < k && parts(#[trigger] s[i]) == p {
                let i = choose|i: int| 0 <= i < k && parts(#[trigger] s[i]) == p;
                if i < k - 1 {
                    assert(first_parts(s, k - 1).contains(p));
                }
            }
        }
    }
}

/// Sorting paths by their number of components keeps them distinct.
proof fn lemma_parents_first(s: Seq<Seq<char>>)
    requires
        forall|i: int, j: int|
            0 <= i < j < s.len() ==> parts(#[trigger] s[i]) != parts(#[trigger] s[j]),
    ensures
        ({
            let r = parents_first(s);
            &&& forall|t: Seq<char>| #[trigger] r.contains(t) == s.contains(t)
            &&& forall|i: int, j: int|
                0 <= i < j < r.len() ==> parts(#[trigger] r[i]).len() <= parts(#[trigger] r[j]).len()
            &&& forall|i: int, j: int|
                0 <= i < j < r.len() ==> parts(#[trigger] r[i]) != parts(#[trigger] r[j])
        }),
{
    broadcast use vstd::seq_lib::group_to_multiset_ensures;

    let lt = count_order();
    assert(strict_weak(lt));
    lemma_stable_sort(lt, s);
    let r = parents_first(s);
    assert forall|t: Seq<char>| #[trigger] r.contains(t) == s.contains(t) by {
        assert(r.to_multiset().contains(t) == s.to_multiset().contains(t));
    }
    assert forall|i: int, j: int| 0 <= i < j < r.len() implies parts(#[trigger] r[i]).len()
        <= parts(#[trigger] r[j]).len() by {
        assert(!lt(r[j], r[i]));
    }
    assert(s.no_duplicates());
    s.lemma_multiset_has_no_duplicates();
    r.lemma_multiset_has_no_duplicates_conv();
    assert forall|i: int, j: int| 0 <= i < j < r.len() implies parts(#[trigger] r[i]) != parts(
        #[trigger] r[j],
    ) by {
        assert(r.contains(r[i]) && r.contains(r[j]));
        let a = choose|a: int| 0 <= a < s.len() && s[a] == r[i];
        let b = choose|b: int| 0 <= b < s.len() && s[b] == r[j];
        assert(a != b);
        if a < b {
        } else {
            assert(parts(s[b]) != parts(s[a]));
        }
    }
}

/// After the first `k` of the directories that `f` has expanded, parents
/// first, `f` is shown as far as these go.
proof fn lemma_expand_first(
    f: Forest,
    base: Seq<Part>,
    k: int,
    git: Map<Seq<Part>, GitStatus>,
    disk: Listings,
)
    requires
        rooted(f, base),
        fits(f, git, disk),
        0 <= k <= parents_first(expanded_paths(flat(f))).len(),
    ensures
        ({
            let order = parents_first(expanded_paths(flat(f)));
            expand_all(tops(f), order.take(k), git, disk) == flat(prune(f, first_parts(order, k)))
        }),
    decreases k,
{
    let all = expanded_paths(flat(f));
    let order = parents_first(all);
    if k == 0 {
        lemma_prune_shallow(f, base, Set::empty());
        assert(order.take(0) =~= Seq::empty());
    } else {
        lemma_expand_first(f, base, k - 1, git, disk);
        lemma_flat_distinct(f, base);
        lemma_expanded_paths(flat(f));
        lemma_parents_first(all);
        lemma_first_parts(order, k - 1);
        let open = first_parts(order, k - 1);
        let t = order[k - 1];
        let p = parts(t);
        assert(order.take(k).drop_last() =~= order.take(k - 1));
        assert(order.take(k).last() == t);
        assert(order.contains(t));
        assert(opens(f, p)) by {
            let j = choose|j: int| 0 <= j < all.len() && all[j] == t;
            let i = choose|i: int|
                0 <= i < flat(f).len() && (#[trigger] flat(f)[i]).expanded && flat(f)[i].is_dir
                    && flat(f)[i].path == all[j];
            lemma_opens_flat(f, p, git, disk);
        }
        assert forall|q: Seq<Part>| #[trigger]
            opens(f, q) && q.len() < p.len() implies open.contains(q) by {
            lemma_opens_flat(f, q, git, disk);
            let i = choose|i: int|
                0 <= i < flat(f).len() && (#[trigger] flat(f)[i]).expanded && flat(f)[i].is_dir
                    && parts(flat(f)[i].path) == q;
            assert(all.contains(flat(f)[i].path));
            assert(order.contains(flat(f)[i].path));
            let m = choose|m: int| 0 <= m < order.len() && order[m] == flat(f)[i].path;
            if m > k - 1 {
                assert(parts(order[k - 1]).len() <= parts(order[m]).len());
            }
        }
        lemma_reached(f, base, p, open, git, disk);
        let s = flat(prune(f, open));
        let i = lemma_expand_one(f, base, open, p, git, disk);
        lemma_prune_rooted(f, base, open);
        lemma_flat_distinct(prune(f, open), base);
        lemma_collapsed_at(s, t);
        let c = collapsed_at(s, t);
        assert(c == i) by {
            if c < i {
                assert(parts(s[c].path) != parts(s[i].path));
            }
        }
    }
}

/// A closed tree comes back as it was: read anew from the same disk, a tree
/// that takes over the browsing position of `v` shows the same entries, with
/// the same selection, scrolled to the same place.
pub proof fn law_state_round_trip(v: TreeView, read: TreeView, disk: Listings)
    requires
        disk_valid(disk),
        displays(v, disk),
        read.entries == shown_in(v.root, 0, Map::empty(), disk),
        read.git_status == v.git_status,
    ensures
        restored(read, state_of(v), disk).entries == v.entries,
        restored(read, state_of(v), disk).scroll == v.scroll,
        v.selected < v.entries.len() ==> restored(read, state_of(v), disk).selected == v.selected,
{
    let git = v.git_status;
    let f = choose|f: Forest| #[trigger]
        flat(f) == v.entries && tops(f) == shown_in(v.root, 0, Map::empty(), disk) && fits(
            f,
            v.git_status,
            disk,
        );
    let base = parts(v.root);
    lemma_shown_siblings(v.root, 0, Map::empty(), disk);
    lemma_rooted(f, base, git, disk);
    lemma_flat_distinct(f, base);
    let all = expanded_paths(flat(f));
    let order = parents_first(all);
    lemma_expanded_paths(flat(f));
    lemma_parents_first(all);
    let n = order.len() as int;
    lemma_expand_first(f, base, n, git, disk);
    assert(order.take(n) =~= order);
    lemma_first_parts(order, n);
    let open = first_parts(order, n);
    assert forall|p: Seq<Part>| #[trigger] opens(f, p) implies open.contains(p) by {
        lemma_opens_flat(f, p, git, disk);
        let i = choose|i: int|
            0 <= i < flat(f).len() && (#[trigger] flat(f)[i]).expanded && flat(f)[i].is_dir
                && parts(flat(f)[i].path) == p;
        assert(order.contains(flat(f)[i].path));
    }
    lemma_prune_all(f, open, git, disk);
    if v.selected < v.entries.len() {
        let t = v.entries[v.selected as int].path;
        lemma_entry_at(v.entries, t);
        let k = entry_at(v.entries, t);
        if k < v.selected {
            assert(parts(v.entries[k].path) != parts(t));
        }
    }
}

// ── Toggling ─────────────────────────────────────────────────────────────
/// Entries that show nothing below them.
spec fn level(s: Seq<EntryView>) -> Forest
    decreases s.len(),
{
    if s.len() == 0 {
        Forest::Empty
    } else {
        Forest::Node {
            entry: s[0],
            kids: Box::new(Forest::Empty),
            next: Box::new(level(s.skip(1))),
        }
    }
}

proof fn lemma_level(s: Seq<EntryView>, git: Map<Seq<Part>, GitStatus>, disk: Listings)
    requires
        forall|k: int| 0 <= k < s.len() ==> !(#[trigger] s[k]).expanded,
    ensures
        flat(level(s)) == s,
        tops(level(s)) == s,
        fits(level(s), git, disk),
    decreases s.len(),
{
    if s.len() > 0 {
        let t = s.skip(1);
        assert forall|k: int| 0 <= k < t.len() implies !(#[trigger] t[k]).expanded by {
            assert(t[k] == s[k + 1]);
        }
        lemma_level(t, git, disk);
        assert(flat(Forest::Empty) =~= Seq::empty());
        assert(fits(Forest::Empty, git, disk));
        assert(!s[0].expanded);
        assert(EntryView { expanded: false, ..s[0] } == s[0]);
        assert(flat(level(s)) =~= s);
        assert(tops(level(s)) =~= s);
    } else {
        assert(flat(level(s)) =~= s);
        assert(tops(level(s)) =~= s);
    }
}

/// What a directory shows is collapsed and lies at one depth.
proof fn lemma_shown_fresh(
    dir: Seq<char>,
    depth: nat,
    git: Map<Seq<Part>, GitStatus>,
    disk: Listings,
)
    ensures
        ({
            let s = shown_in(dir, depth, git, disk);
            forall|k: int|
                0 <= k < s.len() ==> !(#[trigger] s[k]).expanded && s[k].depth == depth
        }),
{
    if let Some(items) = disk.items(dir) {
        lemma_children(items, depth, git);
        let s = children(items, depth, git);
        assert forall|k: int| 0 <= k < s.len() implies !(#[trigger] s[k]).expanded && s[k].depth
            == depth by {
            assert(s.contains(s[k]));
        }
    }
}

/// Whether the depths of a forest mirror its shape, starting at `d`.
spec fn levelled(f: Forest, d: nat) -> bool
    decreases f,
{
    match f {
        Forest::Empty => true,
        Forest::Node { entry, kids, next } => entry.depth == d && levelled(*kids, d + 1)
            && levelled(*next, d),
    }
}

proof fn lemma_levelled(f: Forest, d: nat, git: Map<Seq<Part>, GitStatus>, disk: Listings)
    requires
        fits(f, git, disk),
        forall|k: int| 0 <= k < tops(f).len() ==> (#[trigger] tops(f)[k]).depth == d,
    ensures
        levelled(f, d),
    decreases f,
{
    if let Forest::Node { entry, kids, next } = f {
        assert(tops(f)[0].depth == entry.depth);
        assert forall|k: int| 0 <= k < tops(*next).len() implies (#[trigger] tops(*next)[k]).depth
            == d by {
            assert(tops(f)[k + 1] == tops(*next)[k]);
        }
        lemma_levelled(*next, d, git, disk);
        if entry.expanded {
            lemma_shown_fresh(entry.path, entry.depth + 1, git, disk);
            lemma_levelled(*kids, d + 1, git, disk);
        } else {
            assert(levelled(*kids, d + 1));
        }
    }
}

proof fn lemma_flat_depth(f: Forest, d: nat)
    requires
        levelled(f, d),
    ensures
        forall|i: int| 0 <= i < flat(f).len() ==> (#[trigger] flat(f)[i]).depth >= d,
        flat(f).len() > 0 ==> flat(f)[0].depth == d,
    decreases f,
{
    if let Forest::Node { entry, kids, next } = f {
        lemma_flat_depth(*kids, d + 1);
        lemma_flat_depth(*next, d);
        let (a, b) = (flat(*kids), flat(*next));
        assert forall|i: int| 0 <= i < flat(f).len() implies (#[trigger] flat(f)[i]).depth
            >= d by {
            if i == 0 {
            } else if i < 1 + a.len() {
                assert(flat(f)[i] == a[i - 1]);
            } else {
                assert(flat(f)[i] == b[i - 1 - a.len()]);
            }
        }
    }
}

proof fn lemma_run_over(s: Seq<EntryView>, tail: Seq<EntryView>, d: nat)
    requires
        forall|i: int| 0 <= i < s.len() ==> (#[trigger] s[i]).depth > d,
        tail.len() > 0 ==> tail[0].depth <= d,
    ensures
        run_deeper(s + tail, d) == s.len(),
    decreases s.len(),
{
    if s.len() > 0 {
        let t = s.skip(1);
        assert((s + tail)[0] == s[0]);
        assert((s + tail).skip(1) =~= t + tail);
        assert forall|i: int| 0 <= i < t.len() implies (#[trigger] t[i]).depth > d by {
            assert(t[i] == s[i + 1]);
        }
        lemma_run_over(t, tail, d);
    } else {
        assert(s + tail =~= tail);
    }
}

/// Toggling an entry leaves what stands before it alone.
proof fn lemma_toggle_behind(
    front: Seq<EntryView>,
    s: Seq<EntryView>,
    i: int,
    git: Map<Seq<Part>, GitStatus>,
    disk: Listings,
)
    requires
        0 <= i < s.len(),
    ensures
        toggle_at(front + s, front.len() + i, git, disk) == front + toggle_at(s, i, git, disk),
{
    let k = front.len() + i;
    let all = front + s;
    assert(all[k] == s[i]);
    if s[i].is_dir {
        if s[i].expanded {
            assert(all.skip(k + 1) =~= s.skip(i + 1));
            assert(all.take(k) =~= front + s.take(i));
            assert(collapse_at(all, k) =~= front + collapse_at(s, i));
        } else {
            lemma_expand_behind(front, s, i, shown_in(s[i].path, s[i].depth + 1, git, disk));
        }
    }
}

/// Collapsing the first entry drops what it shows.
proof fn lemma_collapse_head(entry: EntryView, shown: Seq<EntryView>, after: Seq<EntryView>)
    requires
        forall|i: int| 0 <= i < shown.len() ==> (#[trigger] shown[i]).depth > entry.depth,
        after.len() > 0 ==> after[0].depth <= entry.depth,
    ensures
        collapse_at(seq![entry] + (shown + after), 0) == seq![
            EntryView { expanded: false, ..entry },
        ] + after,
{
    let s = seq![entry] + (shown + after);
    lemma_run_over(shown, after, entry.depth);
    assert(s.skip(1) =~= shown + after);
    assert((shown + after).skip(shown.len() as int) =~= after);
    assert(collapse_at(s, 0) =~= seq![EntryView { expanded: false, ..entry }] + after);
}

/// Expanding the first entry puts what it shows behind it.
proof fn lemma_expand_head(entry: EntryView, shown: Seq<EntryView>, after: Seq<EntryView>)
    ensures
        expand_at(seq![entry] + after, 0, shown) == seq![EntryView { expanded: true, ..entry }] + (
        shown + after),
{
    let s = seq![entry] + after;
    assert(s.skip(1) =~= after);
    assert(expand_at(s, 0, shown) =~= seq![EntryView { expanded: true, ..entry }] + (shown
        + after));
}

/// Toggling the first entry of a forest.
proof fn lemma_toggle_head(
    entry: EntryView,
    kids: Forest,
    next: Forest,
    tail: Seq<EntryView>,
    git: Map<Seq<Part>, GitStatus>,
    disk: Listings,
) -> (g: Forest)
    requires
        ({
            let f = Forest::Node { entry, kids: Box::new(kids), next: Box::new(next) };
            fits(f, git, disk) && levelled(f, entry.depth)
        }),
        tail.len() > 0 ==> tail[0].depth <= entry.depth,
    ensures
        toggle_at(seq![entry] + (flat(kids) + (flat(next) + tail)), 0, git, disk) == flat(g) + tail,
        tops(g) == seq![EntryView { expanded: false, ..entry }] + tops(next),
        fits(g, git, disk),
{
    let (a, b) = (flat(kids), flat(next));
    let after = b + tail;
    let off = EntryView { expanded: false, ..entry };
    let on = EntryView { expanded: true, ..entry };
    lemma_flat_depth(kids, entry.depth + 1);
    lemma_flat_depth(next, entry.depth);
    assert(flat(Forest::Empty) =~= Seq::empty());
    assert(fits(Forest::Empty, git, disk));
    if !entry.is_dir {
        let g = Forest::Node { entry, kids: Box::new(kids), next: Box::new(next) };
        assert(flat(g) + tail =~= seq![entry] + (a + after));
        g
    } else if entry.expanded {
        let g = Forest::Node {
            entry: off,
            kids: Box::new(Forest::Empty),
            next: Box::new(next),
        };
        lemma_collapse_head(entry, a, after);
        assert(flat(g) + tail =~= seq![off] + after);
        g
    } else {
        let shown = shown_in(entry.path, entry.depth + 1, git, disk);
        lemma_shown_fresh(entry.path, entry.depth + 1, git, disk);
        lemma_level(shown, git, disk);
        let g = Forest::Node {
            entry: on,
            kids: Box::new(level(shown)),
            next: Box::new(next),
        };
        assert(a + after =~= after);
        lemma_expand_head(entry, shown, after);
        assert(flat(g) + tail =~= seq![on] + (shown + after));
        g
    }
}

/// Toggling an entry of a forest gives a forest with the same first level.
/// `tail` stands for what follows the forest.
proof fn lemma_toggle(
    f: Forest,
    d: nat,
    i: int,
    tail: Seq<EntryView>,
    git: Map<Seq<Part>, GitStatus>,
    disk: Listings,
) -> (g: Forest)
    requires
        fits(f, git, disk),
        levelled(f, d),
        0 <= i < flat(f).len(),
        tail.len() > 0 ==> tail[0].depth <= d,
    ensures
        toggle_at(flat(f) + tail, i, git, disk) == flat(g) + tail,
        tops(g) == tops(f),
        fits(g, git, disk),
    decreases f,
{
    match f {
        Forest::Empty => f,
        Forest::Node { entry, kids, next } => {
            let (a, b) = (flat(*kids), flat(*next));
            let after = b + tail;
            if i == 0 {
                assert(flat(f) + tail =~= seq![entry] + (a + after));
                lemma_toggle_head(entry, *kids, *next, tail, git, disk)
            } else if i < 1 + a.len() {
                lemma_flat_depth(*next, d);
                let h = lemma_toggle(*kids, d + 1, i - 1, after, git, disk);
                lemma_toggle_kids(entry, *kids, *next, h, i - 1, tail, git, disk);
                Forest::Node { entry, kids: Box::new(h), next }
            } else {
                let h = lemma_toggle(*next, d, i - 1 - a.len(), tail, git, disk);
                lemma_toggle_next(entry, *kids, *next, h, i - 1 - a.len(), tail, git, disk);
                Forest::Node { entry, kids, next: Box::new(h) }
            }
        },
    }
}

/// Toggling an entry in what the first entry shows.
proof fn lemma_toggle_kids(
    entry: EntryView,
    kids: Forest,
    next: Forest,
    h: Forest,
    i: int,
    tail: Seq<EntryView>,
    git: Map<Seq<Part>, GitStatus>,
    disk: Listings,
)
    requires
        0 <= i < flat(kids).len(),
        toggle_at(flat(kids) + (flat(next) + tail), i, git, disk) == flat(h) + (flat(next) + tail),
    ensures
        toggle_at(seq![entry] + flat(kids) + flat(next) + tail, i + 1, git, disk) == seq![entry]
            + flat(h) + flat(next) + tail,
{
    let after = flat(next) + tail;
    lemma_toggle_behind(seq![entry], flat(kids) + after, i, git, disk);
    assert(seq![entry] + flat(kids) + flat(next) + tail =~= seq![entry] + (flat(kids) + after));
    assert(seq![entry] + flat(h) + flat(next) + tail =~= seq![entry] + (flat(h) + after));
}

/// Toggling an entry behind what the first entry shows.
proof fn lemma_toggle_next(
    entry: EntryView,
    kids: Forest,
    next: Forest,
    h: Forest,
    i: int,
    tail: Seq<EntryView>,
    git: Map<Seq<Part>, GitStatus>,
    disk: Listings,
)
    requires
        0 <= i < flat(next).len(),
        toggle_at(flat(next) + tail, i, git, disk) == flat(h) + tail,
    ensures
        toggle_at(
            seq![entry] + flat(kids) + flat(next) + tail,
            i + 1 + flat(kids).len(),
            git,
            disk,
        ) == seq![entry] + flat(kids) + flat(h) + tail,
{
    let front = seq![entry] + flat(kids);
    lemma_toggle_behind(front, flat(next) + tail, i, git, disk);
    assert(front + flat(next) + tail =~= front + (flat(next) + tail));
    assert(front + flat(h) + tail =~= front + (flat(h) + tail));
}

/// What a displayed tree consists of.
proof fn lemma_displayed(v: TreeView, disk: Listings) -> (f: Forest)
    requires
        displays(v, disk),
    ensures
        flat(f) == v.entries,
        tops(f) == shown_in(v.root, 0, Map::empty(), disk),
        fits(f, v.git_status, disk),
        levelled(f, 0),
        disk_valid(disk) ==> rooted(f, parts(v.root)),
{
    let f = choose|f: Forest| #[trigger]
        flat(f) == v.entries && tops(f) == shown_in(v.root, 0, Map::empty(), disk) && fits(
            f,
            v.git_status,
            disk,
        );
    lemma_shown_fresh(v.root, 0, Map::empty(), disk);
    lemma_levelled(f, 0, v.git_status, disk);
    if disk_valid(disk) {
        lemma_shown_siblings(v.root, 0, Map::empty(), disk);
        lemma_rooted(f, parts(v.root), v.git_status, disk);
    }
    f
}

/// A new tree displays the directory at its root.
pub proof fn law_opened_displays(
    root: Seq<char>,
    disk: Listings,
    changes: Seq<Option<FileChange>>,
)
    ensures
        displays(opened(root, disk, changes), disk),
{
    let v = opened(root, disk, changes);
    let s = shown_in(root, 0, Map::empty(), disk);
    assert(v.entries =~= s);
    lemma_shown_fresh(root, 0, Map::empty(), disk);
    lemma_level(s, v.git_status, disk);
    assert(flat(level(s)) == v.entries);
}

/// Toggling an entry, whichever it is, leaves the tree displaying what is on
/// disk.
pub proof fn law_toggle_displays(v: TreeView, i: int, disk: Listings)
    requires
        displays(v, disk),
    ensures
        displays(
            TreeView { entries: toggle_at(v.entries, i, v.git_status, disk), ..v },
            disk,
        ),
{
    let r = TreeView { entries: toggle_at(v.entries, i, v.git_status, disk), ..v };
    let f = lemma_displayed(v, disk);
    if 0 <= i < v.entries.len() {
        let g = lemma_toggle(f, 0, i, Seq::empty(), v.git_status, disk);
        assert(flat(f) + Seq::empty() =~= flat(f));
        assert(flat(g) + Seq::empty() =~= flat(g));
        assert(flat(g) == r.entries);
    } else {
        assert(flat(f) == r.entries);
    }
}

/// Collapsing a directory that was just expanded gives the entries back.
pub proof fn law_expand_then_collapse(v: TreeView, i: int, disk: Listings)
    requires
        displays(v, disk),
        0 <= i < v.entries.len(),
        !v.entries[i].expanded,
    ensures
        toggle_at(
            toggle_at(v.entries, i, v.git_status, disk),
            i,
            v.git_status,
            disk,
        ) == v.entries,
{
    let s = v.entries;
    if s[i].is_dir {
        let f = lemma_displayed(v, disk);
        let shown = shown_in(s[i].path, s[i].depth + 1, v.git_status, disk);
        lemma_shown_fresh(s[i].path, s[i].depth + 1, v.git_status, disk);
        let tail = s.skip(i + 1);
        if tail.len() > 0 {
            lemma_collapsed_step(f, 0, i, v.git_status, disk);
            assert(tail[0] == s[i + 1]);
        }
        let r = expand_at(s, i, shown);
        assert(r[i] == EntryView { expanded: true, ..s[i] });
        assert(r.skip(i + 1) =~= shown + tail);
        lemma_run_over(shown, tail, s[i].depth);
        assert((shown + tail).skip(shown.len() as int) =~= tail);
        assert(r.take(i) =~= s.take(i));
        assert(EntryView { expanded: false, ..r[i] } == s[i]);
        assert(collapse_at(r, i) =~= s);
    }
}

/// What follows a collapsed entry lies no deeper than it.
proof fn lemma_collapsed_step(
    f: Forest,
    d: nat,
    i: int,
    git: Map<Seq<Part>, GitStatus>,
    disk: Listings,
)
    requires
        fits(f, git, disk),
        levelled(f, d),
        0 <= i < flat(f).len() - 1,
        !flat(f)[i].expanded,
    ensures
        flat(f)[i + 1].depth <= flat(f)[i].depth,
    decreases f,
{
    if let Forest::Node { entry, kids, next } = f {
        let (s, a, b) = (flat(f), flat(*kids), flat(*next));
        lemma_flat_depth(*kids, d + 1);
        lemma_flat_depth(*next, d);
        if i == 0 {
            assert(flat(Forest::Empty) =~= Seq::empty());
            assert(s[1] == b[0]);
        } else if i < a.len() {
            assert(s[i] == a[i - 1] && s[i + 1] == a[i]);
            lemma_collapsed_step(*kids, d + 1, i - 1, git, disk);
        } else if i == a.len() {
            assert(s[i] == a[i - 1] && s[i + 1] == b[0]);
        } else {
            let k = i - 1 - a.len();
            assert(s[i] == b[k] && s[i + 1] == b[k + 1]);
            lemma_collapsed_step(*next, d, k, git, disk);
        }
    }
}

// ── Going to the parent ──────────────────────────────────────────────────
proof fn lemma_dir_above_front(front: Seq<EntryView>, s: Seq<EntryView>, depth: int)
    ensures
        dir_above(front + s, depth) == if dir_above(s, depth) >= 0 {
            front.len() + dir_above(s, depth)
        } else {
            dir_above(front, depth)
        },
    decreases s.len(),
{
    if s.len() == 0 {
        assert(front + s =~= front);
    } else {
        assert((front + s).last() == s.last());
        assert((front + s).drop_last() =~= front + s.drop_last());
        lemma_dir_above(s.drop_last(), depth);
        lemma_dir_above_front(front, s.drop_last(), depth);
    }
}

/// The last directory one level up, before an entry, is what the entry is in.
proof fn lemma_parent_above(
    f: Forest,
    base: Seq<Part>,
    d: nat,
    i: int,
    git: Map<Seq<Part>, GitStatus>,
    disk: Listings,
)
    requires
        fits(f, git, disk),
        levelled(f, d),
        rooted(f, base),
        0 <= i < flat(f).len(),
    ensures
        ({
            let s = flat(f);
            let k = dir_above(s.take(i), s[i].depth - 1);
            if s[i].depth == d {
                k < 0 && parts(s[i].path).drop_last() == base
            } else {
                0 <= k < i && s[k].expanded && parts(s[k].path) == parts(s[i].path).drop_last()
            }
        }),
    decreases f,
{
    if let Forest::Node { entry, kids, next } = f {
        let (s, a, b) = (flat(f), flat(*kids), flat(*next));
        lemma_flat_depth(*kids, d + 1);
        lemma_flat_depth(*next, d);
        let one = seq![entry];
        let up = s[i].depth - 1;
        if i == 0 {
            assert(s.take(0) =~= Seq::empty());
        } else if i < 1 + a.len() {
            let j = i - 1;
            assert(s[i] == a[j]);
            lemma_parent_above(*kids, parts(entry.path), d + 1, j, git, disk);
            assert(s.take(i) =~= one + a.take(j));
            lemma_dir_above_front(one, a.take(j), up);
            assert(one.drop_last() =~= Seq::empty());
            assert(dir_above(one.drop_last(), up) == -1);
            if a[j].depth == d + 1 {
                assert(entry.expanded) by {
                    assert(flat(Forest::Empty).len() == 0);
                }
                assert(dir_above(one, up) == 0);
            } else {
                let k = dir_above(a.take(j), up);
                assert(s[k + 1] == a[k]);
            }
        } else {
            let j = i - 1 - a.len();
            assert(s[i] == b[j]);
            lemma_parent_above(*next, base, d, j, git, disk);
            let front = one + a;
            assert(s.take(i) =~= front + b.take(j));
            lemma_dir_above_front(front, b.take(j), up);
            if b[j].depth == d {
                lemma_dir_above(front, up);
                let k = dir_above(front, up);
                if k >= 0 {
                    if k > 0 {
                        assert(front[k] == a[k - 1]);
                    }
                    assert(false);
                }
            } else {
                let k = dir_above(b.take(j), up);
                assert(s[front.len() + k] == b[k]);
            }
        }
    }
}

/// Leaving the current directory: from a collapsed directory or a file below
/// the first level, the selection goes to the directory that holds it, and
/// this is collapsed.
pub proof fn law_go_to_parent(v: TreeView, disk: Listings)
    requires
        disk_valid(disk),
        displays(v, disk),
        v.selected < v.entries.len(),
        v.entries[v.selected as int].depth > 0,
        !v.entries[v.selected as int].expanded,
    ensures
        ({
            let r = left_dir(v);
            &&& r.selected < r.entries.len()
            &&& parts(r.entries[r.selected as int].path) == parts(
                v.entries[v.selected as int].path,
            ).drop_last()
            &&& !r.entries[r.selected as int].expanded
        }),
{
    let f = lemma_displayed(v, disk);
    let i = v.selected as int;
    lemma_parent_above(f, parts(v.root), 0, i, v.git_status, disk);
    let k = dir_above(v.entries.take(i), v.entries[i].depth - 1);
    let r = collapse_at(v.entries, k);
    lemma_run_deeper(v.entries.skip(k + 1), v.entries[k].depth);
    assert(r[k] == EntryView { expanded: false, ..v.entries[k] });
}

// ── Events ───────────────────────────────────────────────────────────────
/// Leaving a directory is either toggling an entry or only moving.
proof fn lemma_left_dir_displays(v: TreeView, disk: Listings)
    requires
        displays(v, disk),
    ensures
        displays(left_dir(v), disk),
        left_dir(v).root == v.root,
        left_dir(v).git_status == v.git_status,
        selection_valid(v) ==> selection_valid(left_dir(v)),
{
    if v.selected < v.entries.len() {
        let i = v.selected as int;
        let e = v.entries[i];
        if e.is_dir && e.expanded {
            law_toggle_displays(v, i, disk);
            lemma_run_deeper(v.entries.skip(i + 1), v.entries[i].depth);
        } else if e.depth > 0 {
            let s = v.entries.take(i);
            lemma_dir_above(s, e.depth - 1);
            let k = dir_above(s, e.depth - 1);
            if k >= 0 {
                assert(s[k] == v.entries[k]);
                law_toggle_displays(v, k, disk);
                lemma_run_deeper(v.entries.skip(k + 1), v.entries[k].depth);
                let r = left_dir(v);
                let t = TreeView { entries: toggle_at(v.entries, k, v.git_status, disk), ..v };
                let u = if v.entries[k].expanded {
                    t
                } else {
                    v
                };
                lemma_displays_same(u, r, disk);
            } else {
                lemma_displays_same(v, left_dir(v), disk);
            }
        }
    }
}

proof fn lemma_displays_same(v: TreeView, w: TreeView, disk: Listings)
    requires
        displays(v, disk),
        w.root == v.root,
        w.entries == v.entries,
        w.git_status == v.git_status,
    ensures
        displays(w, disk),
{
    let f = lemma_displayed(v, disk);
    assert(flat(f) == w.entries);
}

/// Toggling an entry does not remove it.
proof fn lemma_toggle_len(s: Seq<EntryView>, i: int, git: Map<Seq<Part>, GitStatus>, disk: Listings)
    requires
        0 <= i < s.len(),
    ensures
        toggle_at(s, i, git, disk).len() > i,
{
    lemma_run_deeper(s.skip(i + 1), s[i].depth);
}

/// What a key can do to the entries and the selection.
proof fn lemma_key_event(
    v: TreeView,
    key: KeyEvent,
    keys: FileTreeKeys,
    behavior: FileTreeOpenBehavior,
    disk: Listings,
)
    ensures
        ({
            let r = key_event(v, key, keys, behavior, disk).0;
            ||| r == left_dir(v)
            ||| {
                &&& r.root == v.root
                &&& r.git_status == v.git_status
                &&& r.entries == v.entries
                &&& r.selected == v.selected || r.selected == 0 || r.selected < v.selected
                    || r.selected < v.entries.len()
            }
            ||| {
                &&& r.root == v.root
                &&& r.git_status == v.git_status
                &&& r.entries == toggle_at(v.entries, v.selected as int, v.git_status, disk)
                &&& r.selected == v.selected
            }
        }),
{
}

/// Whatever the user does, the tree goes on displaying what is on disk, and
/// the selection stays on an entry.
pub proof fn law_event_displays(
    v: TreeView,
    event: Event,
    keys: FileTreeKeys,
    behavior: FileTreeOpenBehavior,
    disk: Listings,
)
    requires
        displays(v, disk),
        selection_valid(v),
    ensures
        displays(event_handled(v, event, keys, behavior, disk).0, disk),
        selection_valid(event_handled(v, event, keys, behavior, disk).0),
        event_handled(v, event, keys, behavior, disk).0.root == v.root,
        event_handled(v, event, keys, behavior, disk).0.git_status == v.git_status,
{
    let r = event_handled(v, event, keys, behavior, disk).0;
    match event {
        Event::Key(key) if !v.filter_mode => {
            lemma_key_event(v, canonical(key), keys, behavior, disk);
            lemma_left_dir_displays(v, disk);
            if r != left_dir(v) {
                if r.entries == v.entries {
                    lemma_displays_same(v, r, disk);
                } else {
                    let i = v.selected as int;
                    let toggled = TreeView {
                        entries: toggle_at(v.entries, i, v.git_status, disk),
                        ..v
                    };
                    law_toggle_displays(v, i, disk);
                    lemma_displays_same(toggled, r, disk);
                    if i < v.entries.len() {
                        lemma_toggle_len(v.entries, i, v.git_status, disk);
                    }
                }
            }
        },
        _ => {
            lemma_displays_same(v, r, disk);
        },
    }
}

// ── Closing, reopening and refreshing ────────────────────────────────────
/// A tree that is closed and opened again, with nothing changed on disk, is
/// as it was.
pub proof fn law_reopened(v: TreeView, disk: Listings, changes: Seq<Option<FileChange>>)
    requires
        disk_valid(disk),
        displays(v, disk),
        v.git_status == git_status_of(changes),
        v.selected < v.entries.len(),
    ensures
        ({
            let r = restored(opened(v.root, disk, changes), state_of(v), disk);
            r.entries == v.entries && r.selected == v.selected && r.scroll == v.scroll
        }),
{
    let read = opened(v.root, disk, changes);
    assert(read.entries =~= shown_in(v.root, 0, Map::empty(), disk));
    law_state_round_trip(v, read, disk);
}

/// Refreshing a tree, with nothing changed on disk, changes nothing but the
/// marks: those on paths that are not shown go.
pub proof fn law_refresh_unchanged(v: TreeView, disk: Listings, changes: Seq<Option<FileChange>>)
    requires
        disk_valid(disk),
        displays(v, disk),
        v.git_status == git_status_of(changes),
        v.selected < v.entries.len(),
    ensures
        refreshed(v, disk, changes) == (TreeView {
            marked: v.marked.filter(|t: Seq<char>| shows(v.entries, t)),
            ..v
        }),
{
    let empty = TreeView { entries: Seq::empty(), git_status: Map::empty(), ..v };
    let read = TreeView { git_status: git_status_of(changes), ..loaded(empty, v.root, 0, disk) };
    assert(read.entries =~= shown_in(v.root, 0, Map::empty(), disk));
    law_state_round_trip(v, read, disk);
}

/// Whether a directory with the components `dir` lists `p`, as a directory if
/// `is_dir` says so.
pub open spec fn lists(disk: Listings, dir: Seq<Part>, p: Seq<Part>, is_dir: bool) -> bool {
    exists|t: Seq<char>, k: int|
        #![trigger disk.items(t)->0[k]]
        parts(t) == dir && disk.items(t) is Some && 0 <= k < disk.items(t)->0.len() && parts(
            disk.items(t)->0[k].path,
        ) == p && (is_dir ==> disk.items(t)->0[k].is_dir)
}

/// Whether `p` is listed below `root`: by the directory that it lies in, which
/// is the root or is listed as a directory itself.
pub open spec fn on_disk(root: Seq<char>, p: Seq<Part>, is_dir: bool, disk: Listings) -> bool
    decreases p.len(),
{
    if p.len() <= parts(root).len() {
        false
    } else {
        lists(disk, p.drop_last(), p, is_dir) && (p.drop_last() == parts(root) || on_disk(
            root,
            p.drop_last(),
            true,
            disk,
        ))
    }
}

/// What a directory lists depends on its components only.
proof fn lemma_same_items(s: Seq<(PathBuf, Vec<DirItem>)>, t: Seq<char>, u: Seq<char>)
    requires
        parts(t) == parts(u),
    ensures
        items_of(s, t) == items_of(s, u),
    decreases s.len(),
{
    if s.len() > 0 {
        lemma_same_items(s.skip(1), t, u);
    }
}

/// What is listed in a directory is shown in it.
proof fn lemma_lists_shown(
    dir: Seq<char>,
    p: Seq<Part>,
    is_dir: bool,
    depth: nat,
    git: Map<Seq<Part>, GitStatus>,
    disk: Listings,
)
    requires
        lists(disk, parts(dir), p, is_dir),
    ensures
        exists|k: int|
            0 <= k < shown_in(dir, depth, git, disk).len() && parts(
                (#[trigger] shown_in(dir, depth, git, disk)[k]).path,
            ) == p && (is_dir ==> shown_in(dir, depth, git, disk)[k].is_dir),
{
    let (t, m) = choose|t: Seq<char>, k: int|
        #![trigger disk.items(t)->0[k]]
        parts(t) == parts(dir) && disk.items(t) is Some && 0 <= k < disk.items(t)->0.len() && parts(
            disk.items(t)->0[k].path,
        ) == p && (is_dir ==> disk.items(t)->0[k].is_dir);
    lemma_same_items(disk.dirs@, t, dir);
    let items = disk.items(dir)->0;
    let s = children(items, depth, git);
    lemma_children(items, depth, git);
    let e = fresh_entry(items[m].path, items[m].is_dir, depth, status_of(git, items[m].path));
    assert(s.contains(e));
    let k = choose|k: int| 0 <= k < s.len() && s[k] == e;
    assert(parts(shown_in(dir, depth, git, disk)[k].path) == p);
}

/// The first level of a forest is among its entries.
proof fn lemma_tops_flat(f: Forest, k: int)
    requires
        0 <= k < tops(f).len(),
    ensures
        exists|i: int|
            0 <= i < flat(f).len() && (#[trigger] flat(f)[i]).path == tops(f)[k].path
                && flat(f)[i].is_dir == tops(f)[k].is_dir,
    decreases f,
{
    if let Forest::Node { entry, kids, next } = f {
        if k == 0 {
            assert(flat(f)[0] == entry);
        } else {
            lemma_tops_flat(*next, k - 1);
            let b = flat(*next);
            let i = choose|i: int|
                0 <= i < b.len() && (#[trigger] b[i]).path == tops(*next)[k - 1].path && b[i].is_dir
                    == tops(*next)[k - 1].is_dir;
            assert(flat(f)[1 + flat(*kids).len() + i] == b[i]);
        }
    }
}

/// What an expanded entry shows is among the entries.
proof fn lemma_kids_flat(
    f: Forest,
    i: int,
    p: Seq<Part>,
    is_dir: bool,
    git: Map<Seq<Part>, GitStatus>,
    disk: Listings,
)
    requires
        fits(f, git, disk),
        0 <= i < flat(f).len(),
        flat(f)[i].expanded,
        lists(disk, parts(flat(f)[i].path), p, is_dir),
    ensures
        exists|j: int|
            0 <= j < flat(f).len() && parts((#[trigger] flat(f)[j]).path) == p && (is_dir
                ==> flat(f)[j].is_dir),
    decreases f,
{
    if let Forest::Node { entry, kids, next } = f {
        let (s, a, b) = (flat(f), flat(*kids), flat(*next));
        if i == 0 {
            lemma_lists_shown(entry.path, p, is_dir, entry.depth + 1, git, disk);
            let shown = shown_in(entry.path, entry.depth + 1, git, disk);
            let k = choose|k: int|
                0 <= k < shown.len() && parts((#[trigger] shown[k]).path) == p && (is_dir
                    ==> shown[k].is_dir);
            lemma_tops_flat(*kids, k);
            let j = choose|j: int|
                0 <= j < a.len() && (#[trigger] a[j]).path == tops(*kids)[k].path && a[j].is_dir
                    == tops(*kids)[k].is_dir;
            assert(s[1 + j] == a[j]);
        } else if i < 1 + a.len() {
            assert(s[i] == a[i - 1]);
            lemma_kids_flat(*kids, i - 1, p, is_dir, git, disk);
            let j = choose|j: int|
                0 <= j < a.len() && parts((#[trigger] a[j]).path) == p && (is_dir ==> a[j].is_dir);
            assert(s[1 + j] == a[j]);
        } else {
            assert(s[i] == b[i - 1 - a.len()]);
            lemma_kids_flat(*next, i - 1 - a.len(), p, is_dir, git, disk);
            let j = choose|j: int|
                0 <= j < b.len() && parts((#[trigger] b[j]).path) == p && (is_dir ==> b[j].is_dir);
            assert(s[1 + a.len() + j] == b[j]);
        }
    }
}

/// Only directories are expanded.
proof fn lemma_expanded_dir(f: Forest, git: Map<Seq<Part>, GitStatus>, disk: Listings)
    requires
        fits(f, git, disk),
    ensures
        forall|i: int|
            0 <= i < flat(f).len() && (#[trigger] flat(f)[i]).expanded ==> flat(f)[i].is_dir,
    decreases f,
{
    if let Forest::Node { entry, kids, next } = f {
        lemma_expanded_dir(*kids, git, disk);
        lemma_expanded_dir(*next, git, disk);
        let (s, a, b) = (flat(f), flat(*kids), flat(*next));
        assert forall|i: int| 0 <= i < s.len() && (#[trigger] s[i]).expanded implies s[i].is_dir by {
            if 0 < i < 1 + a.len() {
                assert(s[i] == a[i - 1]);
            } else if i > 0 {
                assert(s[i] == b[i - 1 - a.len()]);
            }
        }
    }
}

/// Whether `p` is among the first `k` of some paths.
spec fn among(order: Seq<Seq<char>>, k: int, p: Seq<Part>) -> bool {
    exists|j: int| 0 <= j < k && parts(#[trigger] order[j]) == p
}

/// After the first `k` of some paths, parents first: the tree displays what is
/// on disk, and of the directories that it shows exactly those among these
/// paths are expanded.
proof fn lemma_expand_known(read: TreeView, order: Seq<Seq<char>>, k: int, disk: Listings)
    requires
        disk_valid(disk),
        displays(read, disk),
        0 <= k <= order.len(),
        forall|i: int| 0 <= i < read.entries.len() ==> !(#[trigger] read.entries[i]).expanded,
        forall|i: int, j: int|
            0 <= i < j < order.len() ==> parts(#[trigger] order[i]).len() <= parts(
                #[trigger] order[j],
            ).len(),
    ensures
        ({
            let s = expand_all(read.entries, order.take(k), read.git_status, disk);
            &&& displays(TreeView { entries: s, ..read }, disk)
            &&& forall|i: int|
                0 <= i < s.len() ==> (#[trigger] s[i]).expanded == (s[i].is_dir && among(
                    order,
                    k,
                    parts(s[i].path),
                ))
        }),
    decreases k,
{
    let git = read.git_status;
    if k == 0 {
        assert(order.take(0) =~= Seq::empty());
        assert(TreeView { entries: read.entries, ..read } == read);
    } else {
        lemma_expand_known(read, order, k - 1, disk);
        let t = order[k - 1];
        assert(order.take(k).drop_last() =~= order.take(k - 1));
        assert(order.take(k).last() == t);
        let s0 = expand_all(read.entries, order.take(k - 1), git, disk);
        let s = expand_all(read.entries, order.take(k), git, disk);
        let v0 = TreeView { entries: s0, ..read };
        let c = collapsed_at(s0, t);
        lemma_collapsed_at(s0, t);
        law_toggle_displays(v0, c, disk);
        assert(TreeView { entries: s, ..v0 } == TreeView { entries: s, ..read });
        assert forall|p: Seq<Part>| among(order, k, p) == (among(order, k - 1, p) || p == parts(
            t,
        )) by {
            lemma_among(order, k, p);
        }
        if c < s0.len() {
            let f = lemma_displayed(v0, disk);
            lemma_flat_distinct(f, parts(read.root));
            let kids = shown_in(s0[c].path, s0[c].depth + 1, git, disk);
            lemma_shown_siblings(s0[c].path, s0[c].depth + 1, git, disk);
            lemma_shown_fresh(s0[c].path, s0[c].depth + 1, git, disk);
            assert forall|i: int| 0 <= i < s.len() implies (#[trigger] s[i]).expanded == (
            s[i].is_dir && among(order, k, parts(s[i].path))) by {
                if i < c {
                    assert(s[i] == s0[i]);
                    assert(parts(s0[i].path) != parts(s0[c].path));
                } else if i == c {
                    assert(s[i] == EntryView { expanded: true, ..s0[c] });
                } else if i < c + 1 + kids.len() {
                    let e = kids[i - c - 1];
                    assert(s[i] == e);
                    assert(parts(e.path).len() == parts(t).len() + 1);
                    if among(order, k, parts(e.path)) {
                        let j = choose|j: int|
                            0 <= j < k && parts(#[trigger] order[j]) == parts(e.path);
                        if j < k - 1 {
                            assert(parts(order[j]).len() <= parts(order[k - 1]).len());
                        }
                    }
                } else {
                    let m = i - kids.len();
                    assert(s[i] == s0[m]);
                    assert(parts(s0[c].path) != parts(s0[m].path));
                }
            }
        } else {
            assert(s == s0);
            assert forall|i: int| 0 <= i < s.len() implies (#[trigger] s[i]).expanded == (
            s[i].is_dir && among(order, k, parts(s[i].path))) by {
                assert(!(s0[i].is_dir && !s0[i].expanded && parts(s0[i].path) == parts(t)));
            }
        }
    }
}

proof fn lemma_among(order: Seq<Seq<char>>, k: int, p: Seq<Part>)
    requires
        0 < k <= order.len(),
    ensures
        among(order, k, p) == (among(order, k - 1, p) || p == parts(order[k - 1])),
{
    if among(order, k, p) {
        let j = choose|j: int| 0 <= j < k && parts(#[trigger] order[j]) == p;
        if j < k - 1 {
            assert(parts(order[j]) == p);
        }
    }
    if among(order, k - 1, p) {
        let j = choose|j: int| 0 <= j < k - 1 && parts(#[trigger] order[j]) == p;
        assert(parts(order[j]) == p);
    }
}

/// Whether an entry has the components `p`, as a directory if `is_dir` says
/// so.
spec fn has_entry(s: Seq<EntryView>, p: Seq<Part>, is_dir: bool) -> bool {
    exists|i: int|
        0 <= i < s.len() && parts((#[trigger] s[i]).path) == p && (is_dir ==> s[i].is_dir)
}

/// What is on disk is shown, if the directories above it are among those that
/// are expanded wherever they are shown.
proof fn lemma_still_shown(
    r: TreeView,
    order: Seq<Seq<char>>,
    p: Seq<Part>,
    is_dir: bool,
    disk: Listings,
)
    requires
        displays(r, disk),
        on_disk(r.root, p, is_dir, disk),
        forall|i: int|
            0 <= i < r.entries.len() && (#[trigger] r.entries[i]).is_dir && among(
                order,
                order.len() as int,
                parts(r.entries[i].path),
            ) ==> r.entries[i].expanded,
        forall|n: int|
            parts(r.root).len() < n < p.len() ==> among(
                order,
                order.len() as int,
                #[trigger] p.take(n),
            ),
    ensures
        has_entry(r.entries, p, is_dir),
    decreases p.len(),
{
    reveal_with_fuel(on_disk, 2);
    let q = p.drop_last();
    let f = lemma_displayed(r, disk);
    if q == parts(r.root) {
        lemma_lists_shown(r.root, p, is_dir, 0, Map::empty(), disk);
        let shown = shown_in(r.root, 0, Map::empty(), disk);
        let k = choose|k: int|
            0 <= k < shown.len() && parts((#[trigger] shown[k]).path) == p && (is_dir
                ==> shown[k].is_dir);
        lemma_tops_flat(f, k);
        let i = choose|i: int|
            0 <= i < flat(f).len() && (#[trigger] flat(f)[i]).path == tops(f)[k].path
                && flat(f)[i].is_dir == tops(f)[k].is_dir;
        assert(parts(r.entries[i].path) == p);
    } else {
        assert forall|n: int| parts(r.root).len() < n < q.len() implies among(
            order,
            order.len() as int,
            #[trigger] q.take(n),
        ) by {
            assert(q.take(n) =~= p.take(n));
        }
        lemma_still_shown(r, order, q, true, disk);
        let i = choose|i: int|
            0 <= i < r.entries.len() && parts((#[trigger] r.entries[i]).path) == q
                && r.entries[i].is_dir;
        assert(among(order, order.len() as int, p.take(p.len() - 1)));
        assert(p.take(p.len() - 1) =~= q);
        lemma_kids_flat(f, i, p, is_dir, r.git_status, disk);
        let j = choose|j: int|
            0 <= j < flat(f).len() && parts((#[trigger] flat(f)[j]).path) == p && (is_dir
                ==> flat(f)[j].is_dir);
        assert(parts(r.entries[j].path) == p);
    }
}

/// The directories above an entry that is displayed are expanded.
proof fn lemma_above_expanded(v: TreeView, i: int, n: int, disk: Listings)
    requires
        disk_valid(disk),
        displays(v, disk),
        0 <= i < v.entries.len(),
        parts(v.root).len() < n < parts(v.entries[i].path).len(),
    ensures
        exists|k: int|
            0 <= k < v.entries.len() && (#[trigger] v.entries[k]).expanded && v.entries[k].is_dir
                && parts(v.entries[k].path) == parts(v.entries[i].path).take(n),
    decreases i,
{
    let f = lemma_displayed(v, disk);
    let s = v.entries;
    lemma_parent_above(f, parts(v.root), 0, i, v.git_status, disk);
    lemma_expanded_dir(f, v.git_status, disk);
    let p = parts(s[i].path);
    let k = dir_above(s.take(i), s[i].depth - 1);
    assert(s[i].depth != 0);
    assert(s[k].expanded && s[k].is_dir);
    if n == p.len() - 1 {
        assert(p.take(n) =~= p.drop_last());
    } else {
        lemma_above_expanded(v, k, n, disk);
        assert(p.drop_last().take(n) =~= p.take(n));
    }
}

/// Refreshing a tree keeps the browsing position, whatever changed on disk:
/// every directory that was expanded and is still there is expanded, and no
/// other; and if the selected path is still there, it stays selected. The tree
/// displays what is on disk then.
pub proof fn law_refresh_keeps_position(
    v: TreeView,
    before: Listings,
    disk: Listings,
    changes: Seq<Option<FileChange>>,
)
    requires
        disk_valid(before),
        displays(v, before),
        disk_valid(disk),
    ensures
        ({
            let r = refreshed(v, disk, changes);
            &&& displays(r, disk)
            &&& r.root == v.root
            &&& r.scroll == v.scroll
            &&& forall|i: int|
                0 <= i < v.entries.len() && (#[trigger] v.entries[i]).expanded && on_disk(
                    v.root,
                    parts(v.entries[i].path),
                    true,
                    disk,
                ) ==> exists|j: int|
                    0 <= j < r.entries.len() && (#[trigger] r.entries[j]).expanded && parts(
                        r.entries[j].path,
                    ) == parts(v.entries[i].path)
            &&& forall|j: int|
                0 <= j < r.entries.len() && (#[trigger] r.entries[j]).expanded ==> exists|i: int|
                    0 <= i < v.entries.len() && (#[trigger] v.entries[i]).expanded && parts(
                        v.entries[i].path,
                    ) == parts(r.entries[j].path)
            &&& v.selected < v.entries.len() && on_disk(
                v.root,
                parts(v.entries[v.selected as int].path),
                false,
                disk,
            ) ==> r.selected < r.entries.len() && parts(r.entries[r.selected as int].path) == parts(
                v.entries[v.selected as int].path,
            )
        }),
{
    let r = refreshed(v, disk, changes);
    let empty = TreeView { entries: Seq::empty(), git_status: Map::empty(), ..v };
    let read = TreeView { git_status: git_status_of(changes), ..loaded(empty, v.root, 0, disk) };
    let shown = shown_in(v.root, 0, Map::empty(), disk);
    assert(read.entries =~= shown);
    lemma_shown_fresh(v.root, 0, Map::empty(), disk);
    lemma_level(shown, read.git_status, disk);
    assert(flat(level(shown)) == read.entries);
    assert(displays(read, disk));
    let f = lemma_displayed(v, before);
    lemma_flat_distinct(f, parts(v.root));
    lemma_expanded_dir(f, v.git_status, before);
    let all = expanded_paths(v.entries);
    lemma_expanded_paths(v.entries);
    lemma_parents_first(all);
    let order = parents_first(all);
    let n = order.len() as int;
    lemma_expand_known(read, order, n, disk);
    assert(order.take(n) =~= order);
    let back = TreeView { entries: r.entries, ..read };
    lemma_displays_same(back, r, disk);
    assert forall|i: int| 0 <= i < v.entries.len() && (#[trigger] v.entries[i]).expanded implies among(
        order,
        n,
        parts(v.entries[i].path),
    ) by {
        assert(all.contains(v.entries[i].path));
        assert(order.contains(v.entries[i].path));
        let j = choose|j: int| 0 <= j < order.len() && order[j] == v.entries[i].path;
        assert(parts(order[j]) == parts(v.entries[i].path));
    }
    assert forall|i: int, is_dir: bool|
        0 <= i < v.entries.len() && #[trigger] on_disk(
            v.root,
            parts(v.entries[i].path),
            is_dir,
            disk,
        ) implies has_entry(r.entries, parts(v.entries[i].path), is_dir) by {
        let p = parts(v.entries[i].path);
        assert forall|m: int| parts(r.root).len() < m < p.len() implies among(
            order,
            n,
            #[trigger] p.take(m),
        ) by {
            lemma_above_expanded(v, i, m, before);
            let k = choose|k: int|
                0 <= k < v.entries.len() && (#[trigger] v.entries[k]).expanded
                    && v.entries[k].is_dir && parts(v.entries[k].path) == p.take(m);
            assert(among(order, n, parts(v.entries[k].path)));
        }
        lemma_still_shown(r, order, p, is_dir, disk);
    }
    assert forall|i: int|
        0 <= i < v.entries.len() && (#[trigger] v.entries[i]).expanded && on_disk(
            v.root,
            parts(v.entries[i].path),
            true,
            disk,
        ) implies exists|j: int|
        0 <= j < r.entries.len() && (#[trigger] r.entries[j]).expanded && parts(r.entries[j].path)
            == parts(v.entries[i].path) by {
        assert(has_entry(r.entries, parts(v.entries[i].path), true));
        let j = choose|j: int|
            0 <= j < r.entries.len() && parts((#[trigger] r.entries[j]).path) == parts(
                v.entries[i].path,
            ) && r.entries[j].is_dir;
        assert(r.entries[j].expanded);
    }
    assert forall|j: int| 0 <= j < r.entries.len() && (#[trigger] r.entries[j]).expanded implies exists|
        i: int,
    |
        0 <= i < v.entries.len() && (#[trigger] v.entries[i]).expanded && parts(v.entries[i].path)
            == parts(r.entries[j].path) by {
        let m = choose|m: int| 0 <= m < n && parts(#[trigger] order[m]) == parts(r.entries[j].path);
        assert(order.contains(order[m]));
        assert(all.contains(order[m]));
        let k = choose|k: int| 0 <= k < all.len() && all[k] == order[m];
        let i = choose|i: int|
            0 <= i < v.entries.len() && (#[trigger] v.entries[i]).expanded && v.entries[i].is_dir
                && v.entries[i].path == all[k];
        assert(v.entries[i].expanded);
    }
    if v.selected < v.entries.len() {
        let t = v.entries[v.selected as int].path;
        if on_disk(v.root, parts(t), false, disk) {
            assert(has_entry(r.entries, parts(t), false));
            lemma_entry_at(r.entries, t);
        }
    }
}

/// After scrolling, the selected entry is among the rows that are shown: all
/// rows but the one of the title.
pub proof fn law_scroll_shows_selection(v: TreeView)
    requires
        v.cached_height >= 2,
    ensures
        scrolled(v).scroll <= scrolled(v).selected < scrolled(v).scroll + v.cached_height - 1,
        scrolled(v) == (TreeView { scroll: scrolled(v).scroll, ..v }),
{
}

} // verus!

//! Marking entries, and what destructive actions act upon.
use crate::entry::EntryView;
use crate::file_tree::{selected_path, FileTree, TreeView};
use crate::order::lemma_lex_prefix;
use crate::path::{lemma_path_order, part_order, parts, path_less, path_texts, within, PathBuf};
use crate::path_set::{
    holds, increasing, inserted, lemma_filter_increasing, lemma_inserted, removed,
};
use vstd::prelude::*;

verus! {

/// `v` with the mark on the selected entry toggled; that entry is the anchor
/// for selecting a range.
pub open spec fn mark_toggled(v: TreeView) -> TreeView {
    match selected_path(v) {
        Some(t) => TreeView {
            marked: if holds(v.marked, t) {
                removed(v.marked, t)
            } else {
                inserted(v.marked, t)
            },
            anchor: Some(v.selected as usize),
            ..v
        },
        None => v,
    }
}

/// `s` with the paths of a list of entries in it.
pub open spec fn with_paths(s: Seq<Seq<char>>, entries: Seq<EntryView>) -> Seq<Seq<char>>
    decreases entries.len(),
{
    if entries.len() == 0 {
        s
    } else {
        inserted(with_paths(s, entries.drop_last()), entries.last().path)
    }
}

/// The first entry of the range between the anchor and the selection.
pub open spec fn range_start(v: TreeView) -> int {
    let anchor = range_anchor(v);
    if anchor <= v.selected {
        anchor
    } else {
        v.selected as int
    }
}

/// The last entry of the range between the anchor and the selection.
pub open spec fn range_end(v: TreeView) -> int {
    let anchor = range_anchor(v);
    if anchor <= v.selected {
        v.selected as int
    } else {
        anchor
    }
}

/// The anchor of a range: the selection where none is set, and never behind
/// the last entry.
pub open spec fn range_anchor(v: TreeView) -> int {
    let anchor = match v.anchor {
        Some(a) => a as int,
        None => v.selected as int,
    };
    if anchor < v.entries.len() {
        anchor
    } else {
        v.entries.len() - 1
    }
}

/// `v` with every entry between the anchor and the selection marked.
pub open spec fn range_marked(v: TreeView) -> TreeView {
    if v.entries.len() == 0 {
        v
    } else {
        TreeView {
            marked: with_paths(
                v.marked,
                v.entries.subrange(range_start(v), range_end(v) + 1),
            ),
            anchor: Some(v.selected as usize),
            ..v
        }
    }
}

/// The paths that a destructive action is aimed at: the marked ones, or the
/// selected one where nothing is marked.
pub open spec fn targets(v: TreeView) -> Seq<Seq<char>> {
    if v.marked.len() > 0 {
        v.marked
    } else {
        match selected_path(v) {
            Some(t) => seq![t],
            None => Seq::empty(),
        }
    }
}

/// Whether `t` lies within one of the directories in `s`.
pub open spec fn covered(s: Seq<Seq<char>>, t: Seq<char>) -> bool {
    exists|i: int| 0 <= i < s.len() && within(t, #[trigger] s[i])
}

/// `s` without the paths that lie within an earlier one.
pub open spec fn outermost(s: Seq<Seq<char>>) -> Seq<Seq<char>>
    decreases s.len(),
{
    if s.len() == 0 {
        Seq::empty()
    } else {
        let p = outermost(s.drop_last());
        if covered(p, s.last()) {
            p
        } else {
            p.push(s.last())
        }
    }
}

proof fn lemma_removed(s: Seq<Seq<char>>, t: Seq<char>)
    requires
        increasing(s),
    ensures
        increasing(removed(s, t)),
        forall|u: Seq<char>| #[trigger]
            holds(removed(s, t), u) <==> holds(s, u) && parts(u) != parts(t),
{
    let keep = |x: Seq<char>| parts(x) != parts(t);
    let r = s.filter(keep);
    lemma_filter_increasing(s, keep);
    assert forall|u: Seq<char>| #[trigger] holds(r, u) <==> holds(s, u) && parts(u) != parts(
        t,
    ) by {
        if holds(r, u) {
            let i = choose|i: int| 0 <= i < r.len() && parts(#[trigger] r[i]) == parts(u);
            assert(r.contains(r[i]));
            assert(s.contains(r[i]));
            let j = choose|j: int| 0 <= j < s.len() && s[j] == r[i];
            assert(parts(s[j]) == parts(u));
        }
        if holds(s, u) && parts(u) != parts(t) {
            let i = choose|i: int| 0 <= i < s.len() && parts(#[trigger] s[i]) == parts(u);
            assert(s.contains(s[i]));
            assert(r.contains(s[i]));
            let j = choose|j: int| 0 <= j < r.len() && r[j] == s[i];
            assert(parts(r[j]) == parts(u));
        }
    }
}

/// Whether one of the entries `s` has the path `u`.
pub open spec fn has_path(s: Seq<EntryView>, u: Seq<char>) -> bool {
    exists|i: int| 0 <= i < s.len() && parts((#[trigger] s[i]).path) == parts(u)
}

proof fn lemma_with_paths(s: Seq<Seq<char>>, entries: Seq<EntryView>)
    requires
        increasing(s),
    ensures
        increasing(with_paths(s, entries)),
        forall|u: Seq<char>| #[trigger]
            holds(with_paths(s, entries), u) <==> holds(s, u) || has_path(entries, u),
    decreases entries.len(),
{
    if entries.len() > 0 {
        let p = entries.drop_last();
        lemma_with_paths(s, p);
        lemma_inserted(with_paths(s, p), entries.last().path);
        assert forall|u: Seq<char>| #[trigger] has_path(entries, u) <==> has_path(p, u) || parts(u)
            == parts(entries.last().path) by {
            if has_path(entries, u) {
                let i = choose|i: int|
                    0 <= i < entries.len() && parts((#[trigger] entries[i]).path) == parts(u);
                if i < p.len() {
                    assert(parts(p[i].path) == parts(u));
                }
            }
            if has_path(p, u) {
                let i = choose|i: int| 0 <= i < p.len() && parts((#[trigger] p[i]).path) == parts(u);
                assert(parts(entries[i].path) == parts(u));
            }
            assert(entries[entries.len() - 1] == entries.last());
        }
    }
}

impl FileTree {
    /// Toggle the mark on the current entry and use it as the anchor for
    /// subsequent range selections (`V`).
    pub fn toggle_mark(&mut self)
        requires
            old(self).marked.wf(),
        ensures
            final(self)@ == mark_toggled(old(self)@),
            final(self).marked.wf(),
    {
        assert(self@.entries.len() == self.entries@.len());
        if self.selected >= self.entries.len() {
            return;
        }
        let path = self.entries[self.selected].path.clone();
        if self.marked.contains(&path) {
            self.marked.remove(&path);
        } else {
            self.marked.insert(path);
        }
        self.anchor = Some(self.selected);
    }

    /// Mark every entry between the anchor (the last entry toggled with `v`,
    /// or the current entry when there is none) and the current selection.
    pub fn mark_range(&mut self)
        requires
            old(self).marked.wf(),
            old(self).entries@.len() == 0 || old(self).selected < old(self).entries@.len(),
        ensures
            final(self)@ == range_marked(old(self)@),
            final(self).marked.wf(),
    {
        let ghost v = self@;
        assert(v.entries.len() == self.entries@.len());
        if self.entries.len() == 0 {
            return;
        }
        let wanted = match self.anchor {
            Some(a) => a,
            None => self.selected,
        };
        let len = self.entries.len();
        let last = len - 1;
        let anchor = if wanted < last {
            wanted
        } else {
            last
        };
        let (start, end) = if anchor <= self.selected {
            (anchor, self.selected)
        } else {
            (self.selected, anchor)
        };
        assert(start == range_start(v) && end == range_end(v));
        let ghost range = v.entries.subrange(start as int, end + 1);
        let mut i: usize = start;
        assert(range.take(0) =~= Seq::empty());
        while i <= end
            invariant
                start <= i <= end + 1,
                end < len == self.entries@.len(),
                self.marked.wf(),
                range == v.entries.subrange(start as int, end + 1),
                v.entries.len() == self.entries@.len(),
                self@ == (TreeView {
                    marked: with_paths(v.marked, range.take(i - start)),
                    ..v
                }),
            decreases end + 1 - i,
        {
            assert(range.take(i - start + 1).drop_last() =~= range.take(i - start));
            assert(range.take(i - start + 1).last() == self@.entries[i as int]);
            self.marked.insert(self.entries[i].path.clone());
            i += 1;
        }
        assert(range.take(i - start) =~= range);
        self.anchor = Some(self.selected);
    }

    /// Clears all marks. Returns `true` if there was anything to clear.
    pub fn clear_marks(&mut self) -> (r: bool)
        ensures
            r == (old(self)@.marked.len() > 0),
            final(self)@ == (TreeView { marked: Seq::empty(), anchor: None, ..old(self)@ }),
            final(self).marked.wf(),
    {
        let had_marks = !self.marked.is_empty();
        self.marked.clear();
        self.anchor = None;
        had_marks
    }

    /// The paths acted upon by destructive actions: the marked entries, or
    /// the current entry when nothing is marked. Entries that are contained
    /// in another selected directory are dropped, since deleting the
    /// directory already removes them.
    pub fn selected_paths(&self) -> (r: Vec<PathBuf>)
        ensures
            path_texts(r@) == outermost(targets(self@)),
    {
        assert(self@.entries.len() == self.entries@.len());
        let mut deduped: Vec<PathBuf> = Vec::new();
        assert(path_texts(deduped@) =~= Seq::empty());
        if self.marked.is_empty() {
            if self.selected < self.entries.len() {
                let path = self.entries[self.selected].path.clone();
                let ghost t = path@;
                deduped.push(path);
                proof {
                    let s = seq![t];
                    assert(s.drop_last() =~= Seq::empty());
                    assert(outermost(s.drop_last()) =~= Seq::empty());
                    assert(outermost(s) =~= seq![t]);
                    assert(path_texts(deduped@) =~= seq![t]);
                }
            }
            return deduped;
        }
        let ghost s = self.marked@;
        let mut i: usize = 0;
        assert(outermost(s.take(0)) =~= Seq::empty());
        while i < self.marked.paths.len()
            invariant
                i <= self.marked.paths@.len(),
                s == self.marked@,
                path_texts(deduped@) == outermost(s.take(i as int)),
            decreases self.marked.paths@.len() - i,
        {
            let path = self.marked.paths[i].clone();
            assert(s.take(i + 1).drop_last() =~= s.take(i as int));
            assert(s.take(i + 1).last() == path@);
            let ghost before = deduped@;
            let ghost t = path@;
            if !is_covered(&deduped, &path) {
                deduped.push(path);
                assert(path_texts(deduped@) =~= path_texts(before).push(t));
            }
            i += 1;
        }
        assert(s.take(i as int) =~= s);
        deduped
    }
}

/// Whether the path lies within one of the directories.
fn is_covered(dirs: &Vec<PathBuf>, path: &PathBuf) -> (r: bool)
    ensures
        r == covered(path_texts(dirs@), path@),
{
    let mut i: usize = 0;
    while i < dirs.len()
        invariant
            i <= dirs@.len(),
            forall|j: int| 0 <= j < i ==> !within(path@, #[trigger] path_texts(dirs@)[j]),
        decreases dirs@.len() - i,
    {
        if path.starts_with(&dirs[i]) {
            assert(within(path@, path_texts(dirs@)[i as int]));
            return true;
        }
        i += 1;
    }
    false
}

// ── Laws ─────────────────────────────────────────────────────────────────
/// Toggling the mark twice leaves every path as marked as it was.
pub proof fn law_toggle_mark_twice(v: TreeView, u: Seq<char>)
    requires
        increasing(v.marked),
    ensures
        increasing(mark_toggled(v).marked),
        holds(mark_toggled(mark_toggled(v)).marked, u) == holds(v.marked, u),
{
    if let Some(t) = selected_path(v) {
        lemma_removed(v.marked, t);
        lemma_inserted(v.marked, t);
        let once = mark_toggled(v);
        assert(selected_path(once) == Some(t));
        lemma_removed(once.marked, t);
        lemma_inserted(once.marked, t);
        assert(holds(v.marked, t) == !holds(once.marked, t));
        assert(parts(u) == parts(t) ==> holds(v.marked, u) == holds(v.marked, t));
    }
}

/// Toggling the mark changes it on the selected entry, and on no other path.
pub proof fn law_toggle_mark(v: TreeView, u: Seq<char>)
    requires
        increasing(v.marked),
    ensures
        match selected_path(v) {
            Some(t) => holds(mark_toggled(v).marked, u) == (holds(v.marked, u) != (parts(u)
                == parts(t))),
            None => mark_toggled(v) == v,
        },
{
    if let Some(t) = selected_path(v) {
        lemma_removed(v.marked, t);
        lemma_inserted(v.marked, t);
        assert(parts(u) == parts(t) ==> holds(v.marked, u) == holds(v.marked, t));
    }
}

/// Selecting a range marks every entry between the anchor and the selection,
/// whichever comes first, and keeps the marks that were there.
pub proof fn law_mark_range(v: TreeView, u: Seq<char>)
    requires
        increasing(v.marked),
        v.selected < v.entries.len(),
    ensures
        increasing(range_marked(v).marked),
        holds(range_marked(v).marked, u) <==> holds(v.marked, u) || exists|i: int|
            range_start(v) <= i <= range_end(v) && parts((#[trigger] v.entries[i]).path) == parts(
                u,
            ),
        0 <= range_start(v) <= v.selected <= range_end(v) < v.entries.len(),
{
    let range = v.entries.subrange(range_start(v), range_end(v) + 1);
    lemma_with_paths(v.marked, range);
    if has_path(range, u) {
        let i = choose|i: int| 0 <= i < range.len() && parts((#[trigger] range[i]).path) == parts(u);
        assert(v.entries[range_start(v) + i] == range[i]);
    }
    if exists|i: int|
        range_start(v) <= i <= range_end(v) && parts((#[trigger] v.entries[i]).path) == parts(u) {
        let i = choose|i: int|
            range_start(v) <= i <= range_end(v) && parts((#[trigger] v.entries[i]).path) == parts(
                u,
            );
        assert(range[i - range_start(v)] == v.entries[i]);
    }
}

/// What a destructive action acts upon is among what it is aimed at, covers
/// all of it, and no two of its paths lie one within the other: nothing is
/// deleted twice, and nothing that was marked is left behind.
pub proof fn law_selected_paths(v: TreeView)
    requires
        increasing(v.marked),
    ensures
        forall|i: int|
            0 <= i < outermost(targets(v)).len() ==> targets(v).contains(
                #[trigger] outermost(targets(v))[i],
            ),
        forall|i: int|
            0 <= i < targets(v).len() ==> covered(
                outermost(targets(v)),
                #[trigger] targets(v)[i],
            ),
        forall|i: int, j: int|
            0 <= i < outermost(targets(v)).len() && 0 <= j < outermost(targets(v)).len() && i != j
                ==> !within(
                #[trigger] outermost(targets(v))[i],
                #[trigger] outermost(targets(v))[j],
            ),
{
    assert(increasing(targets(v)));
    lemma_outermost(targets(v));
}

proof fn lemma_outermost(s: Seq<Seq<char>>)
    requires
        increasing(s),
    ensures
        forall|i: int| 0 <= i < outermost(s).len() ==> s.contains(#[trigger] outermost(s)[i]),
        forall|i: int| 0 <= i < s.len() ==> covered(outermost(s), #[trigger] s[i]),
        forall|i: int, j: int|
            0 <= i < outermost(s).len() && 0 <= j < outermost(s).len() && i != j ==> !within(
                #[trigger] outermost(s)[i],
                #[trigger] outermost(s)[j],
            ),
    decreases s.len(),
{
    if s.len() > 0 {
        let q = s.drop_last();
        assert forall|i: int, j: int| 0 <= i < j < q.len() implies path_less(
            #[trigger] q[i],
            #[trigger] q[j],
        ) by {
            assert(path_less(s[i], s[j]));
        }
        lemma_outermost(q);
        let p = outermost(q);
        let t = s.last();
        let r = outermost(s);
        assert forall|i: int| 0 <= i < r.len() implies s.contains(#[trigger] r[i]) by {
            if i < p.len() {
                assert(q.contains(p[i]));
                let k = choose|k: int| 0 <= k < q.len() && q[k] == p[i];
                assert(s[k] == r[i]);
            } else {
                assert(s[s.len() - 1] == r[i]);
            }
        }
        assert forall|i: int| 0 <= i < s.len() implies covered(r, #[trigger] s[i]) by {
            if i < q.len() {
                assert(covered(p, q[i]));
                let k = choose|k: int| 0 <= k < p.len() && within(q[i], #[trigger] p[k]);
                assert(r[k] == p[k]);
            } else if !covered(p, t) {
                assert(parts(t).is_prefix_of(parts(t)));
                assert(within(t, r[p.len() as int]));
            }
        }
        assert forall|i: int, j: int|
            0 <= i < r.len() && 0 <= j < r.len() && i != j implies !within(
            #[trigger] r[i],
            #[trigger] r[j],
        ) by {
            if i < p.len() && j < p.len() {
                assert(!within(p[i], p[j]));
            } else if i == p.len() {
                assert(!within(t, p[j]));
            } else {
                // An earlier path does not lie within a later one.
                assert(q.contains(p[i]));
                let k = choose|k: int| 0 <= k < q.len() && q[k] == p[i];
                assert(path_less(s[k], s[s.len() - 1]));
                lemma_path_order(p[i], t, t);
                if within(p[i], t) {
                    assert(parts(t).len() <= parts(p[i]).len());
                    if parts(t).len() == parts(p[i]).len() {
                        assert(parts(t) =~= parts(p[i]));
                    } else {
                        lemma_lex_prefix(part_order(), parts(t), parts(p[i]));
                    }
                }
            }
        }
    }
}

} // verus!

//! What a session saves, where it is kept, and what comes back of it.
use crate::args::{Layout, SessionArgView};
use crate::disk::Disk;
use crate::file_tree::StateView;
use crate::layout::{
    buffers_of, captured, captured_all, law_focus_kept, law_pruned, leaf_of, leaves, leaves_all,
    none_empty, nothing_empty, opt_leaves, persisted, pruned, pruned_all, session_pruned,
    snapshot_of, view_count, view_counts, Document, OpenView, Progress, SplitView,
};
use crate::path::{joined, parent};
use crate::restore::{
    anchors, before_layout, cursor_restored, cursors_restored, filled, first_path, first_path_in,
    first_view, focus_target, given, is_shown, law_session_restored, lemma_buffers_opened,
    lemma_replies_used, lemma_tail_restored, layout_rebuilt, placed_leaves, rebuilt, refocused,
    session_restored, unreferenced, update_of, CallView, ReplyView, Step,
};
use crate::session::{
    after_write, automatic_write, chosen_session, fnv, is_safe, is_session_file, latest, law_latest,
    managed_file, not_older, session_config, session_file_name, signature_of, workspace_key,
    write_due, writes, BufferView, LayoutView, LeafView, ManagerView, SessionConfigView,
    SessionFile, SessionView, SessionWrite,
};
use crate::text::{ascii_lowercase, hex};
use vstd::prelude::*;
use vstd::utf8::encode_utf8;

verus! {

// ── Saving ───────────────────────────────────────────────────────────────
/// Whether what is saved of a view is what the view shows: its document, its
/// selections with which of them is the primary one, and where it is scrolled
/// to.
pub open spec fn saved_as(v: OpenView, leaf: LeafView) -> bool {
    &&& v.path == Some(leaf.path)
    &&& leaf.selections.len() == v.selections.len()
    &&& forall|i: int|
        0 <= i < v.selections.len() ==> (#[trigger] leaf.selections[i]).anchor
            == v.selections[i].anchor && leaf.selections[i].head == v.selections[i].head
    &&& leaf.primary == v.primary
    &&& leaf.scroll_anchor == Some(v.scroll_anchor)
    &&& leaf.vertical_offset == v.vertical_offset
    &&& leaf.horizontal_offset == v.horizontal_offset
}

/// What is saved of a view is what it shows.
pub proof fn law_view_saved(v: OpenView)
    requires
        v.path is Some,
    ensures
        saved_as(v, leaf_of(v)),
{
}

/// The views that are saved are those that show a document with a path, in
/// their order.
pub proof fn law_views_saved(views: Seq<OpenView>)
    ensures
        persisted(views) == views.filter(|v: OpenView| v.path is Some).map_values(
            |v: OpenView| leaf_of(v),
        ),
    decreases views.len(),
{
    let some = |v: OpenView| v.path is Some;
    let get = |v: OpenView| leaf_of(v);
    if views.len() == 0 {
        reveal(Seq::filter);
        assert(views.filter(some).map_values(get) =~= Seq::empty());
    } else {
        let d = views.drop_last();
        law_views_saved(d);
        assert(views =~= d.push(views.last()));
        d.lemma_filter_push(views.last(), some);
        if views.last().path is Some {
            assert(views.filter(some).map_values(get) =~= d.filter(some).map_values(get).push(
                leaf_of(views.last()),
            ));
        }
    }
}

/// The views of a layout: that of a single view is the view, those of a
/// container are those of its children, one after the other.
pub proof fn law_leaves(v: LeafView, layout: Layout, s: Seq<LayoutView>, l: LayoutView)
    ensures
        leaves(LayoutView::View(v)) == seq![v],
        leaves(LayoutView::Container { layout, children: Seq::empty() }).len() == 0,
        leaves(LayoutView::Container { layout, children: s.push(l) }) == leaves(
            LayoutView::Container { layout, children: s },
        ) + leaves(l),
{
    assert(s.push(l).drop_last() =~= s);
}

/// Whether a saved layout has the shape of a split: containers are split the
/// same way, with as many children, and views stand for views.
pub open spec fn mirrors(node: SplitView, l: LayoutView) -> bool
    decreases node,
{
    match (node, l) {
        (SplitView::View, LayoutView::View(_)) => true,
        (
            SplitView::Container { layout: a, children: s },
            LayoutView::Container { layout: b, children: t },
        ) => a == b && mirrors_all(s, t),
        _ => false,
    }
}

/// The same for several.
pub open spec fn mirrors_all(s: Seq<SplitView>, t: Seq<LayoutView>) -> bool
    decreases s,
{
    if s.len() == 0 || t.len() == 0 {
        s.len() == t.len()
    } else {
        mirrors_all(s.drop_last(), t.drop_last()) && mirrors(s.last(), t.last())
    }
}

/// Whether every container of a split has children.
pub open spec fn split_filled(node: SplitView) -> bool
    decreases node,
{
    match node {
        SplitView::View => true,
        SplitView::Container { layout, children } => children.len() > 0 && splits_filled(children),
    }
}

/// The same for several.
pub open spec fn splits_filled(s: Seq<SplitView>) -> bool
    decreases s,
{
    s.len() > 0 ==> splits_filled(s.drop_last()) && split_filled(s.last())
}

/// If every view shows a document with a path, the layout is saved as it is
/// split.
pub proof fn law_layout_saved(node: SplitView, views: Seq<OpenView>, at: Progress)
    requires
        split_filled(node),
        at.next + view_count(node) <= views.len(),
        forall|i: int| 0 <= i < views.len() ==> (#[trigger] views[i]).path is Some,
    ensures
        captured(node, views, at).0 matches Some(l) && mirrors(node, l),
        captured(node, views, at).1.next == at.next + view_count(node),
    decreases node,
{
    match node {
        SplitView::View => {
            assert(views[at.next as int].path is Some);
        },
        SplitView::Container { layout, children } => {
            lemma_layouts_saved(children, views, at);
        },
    }
}

proof fn lemma_layouts_saved(s: Seq<SplitView>, views: Seq<OpenView>, at: Progress)
    requires
        splits_filled(s),
        at.next + view_counts(s) <= views.len(),
        forall|i: int| 0 <= i < views.len() ==> (#[trigger] views[i]).path is Some,
    ensures
        captured_all(s, views, at).0.len() == s.len(),
        mirrors_all(s, captured_all(s, views, at).0),
        captured_all(s, views, at).1.next == at.next + view_counts(s),
    decreases s,
{
    if s.len() > 0 {
        let d = s.drop_last();
        lemma_layouts_saved(d, views, at);
        let (before, mid) = captured_all(d, views, at);
        law_layout_saved(s.last(), views, mid);
        let l = captured(s.last(), views, mid).0->0;
        assert(before.push(l).drop_last() =~= before);
    }
}

/// A container that is saved is split the way that it was.
pub proof fn law_direction_saved(
    layout: Layout,
    children: Seq<SplitView>,
    views: Seq<OpenView>,
    at: Progress,
)
    ensures
        captured(SplitView::Container { layout, children }, views, at).0 matches Some(l)
            ==> (l matches LayoutView::Container { layout: saved, children: _ } && saved == layout),
{
}

/// The buffers that are saved are the documents with a path, in their order,
/// each with its cursor; without any there is nothing to save. The workspace
/// and the sidebar are saved with them.
pub proof fn law_buffers_saved(
    workspace: Seq<char>,
    documents: Seq<Document>,
    splits: Option<SplitView>,
    views: Seq<OpenView>,
    sidebar: Option<StateView>,
)
    ensures
        buffers_of(documents) == documents.filter(|d: Document| d.path is Some).map_values(
            |d: Document| BufferView { path: d.path->0@, cursor: d.cursor },
        ),
        ({
            let r = snapshot_of(workspace, documents, splits, views, sidebar);
            &&& r is None <==> buffers_of(documents).len() == 0
            &&& r matches Some(v) ==> {
                &&& v.version == 1
                &&& v.workspace == workspace
                &&& v.buffers == buffers_of(documents)
                &&& v.sidebar == sidebar
                &&& splits is None ==> v.layout is None && v.focused_view == 0
                &&& splits matches Some(node) ==> v.layout == captured(
                    node,
                    views,
                    Progress { next: 0, leaf: 0, focus: 0 },
                ).0
            }
        }),
    decreases documents.len(),
{
    let some = |d: Document| d.path is Some;
    let get = |d: Document| BufferView { path: d.path->0@, cursor: d.cursor };
    if documents.len() == 0 {
        reveal(Seq::filter);
        assert(documents.filter(some).map_values(get) =~= Seq::empty());
    } else {
        let d = documents.drop_last();
        law_buffers_saved(workspace, d, splits, views, sidebar);
        assert(documents =~= d.push(documents.last()));
        d.lemma_filter_push(documents.last(), some);
        if documents.last().path is Some {
            assert(documents.filter(some).map_values(get) =~= d.filter(some).map_values(get).push(
                get(documents.last()),
            ));
        }
    }
}

// ── Loading ──────────────────────────────────────────────────────────────
/// Of what is loaded, buffers and views whose file is gone are dropped; the
/// rest stays, and containers are split the way that they were.
pub proof fn law_loaded(v: SessionView, disk: Disk)
    ensures
        ({
            let r = session_pruned(v, disk);
            &&& r.version == v.version
            &&& r.workspace == v.workspace
            &&& r.sidebar == v.sidebar
            &&& r.buffers == v.buffers.filter(|b: BufferView| disk.file_at(b.path))
            &&& v.layout is None ==> r.layout is None && r.focused_view == v.focused_view
            &&& v.layout matches Some(l) ==> opt_leaves(r.layout) == leaves(l).filter(
                |x: LeafView| disk.file_at(x.path),
            )
            &&& v.layout matches Some(l) ==> (v.focused_view < leaves(l).len() && disk.file_at(
                leaves(l)[v.focused_view as int].path,
            ) ==> r.focused_view < opt_leaves(r.layout).len() && opt_leaves(
                r.layout,
            )[r.focused_view as int] == leaves(l)[v.focused_view as int])
        }),
{
    if let Some(l) = v.layout {
        law_pruned(l, disk);
        if v.focused_view < leaves(l).len() && disk.file_at(
            leaves(l)[v.focused_view as int].path,
        ) {
            law_focus_kept(l, v.focused_view, v.focused_view as int, disk);
        }
    }
}

/// What is left of a container: what is left of its children, in their order,
/// split the way that it was.
pub proof fn law_container_pruned(layout: Layout, s: Seq<LayoutView>, disk: Disk)
    ensures
        ({
            let left = s.filter(|l: LayoutView| pruned(l, disk) is Some).map_values(
                |l: LayoutView| pruned(l, disk)->0,
            );
            &&& left.len() == 0 ==> pruned(LayoutView::Container { layout, children: s }, disk)
                is None
            &&& left.len() > 0 ==> pruned(LayoutView::Container { layout, children: s }, disk)
                == Some(LayoutView::Container { layout, children: left })
        }),
{
    lemma_pruned_all(s, disk);
}

proof fn lemma_pruned_all(s: Seq<LayoutView>, disk: Disk)
    ensures
        pruned_all(s, disk) == s.filter(|l: LayoutView| pruned(l, disk) is Some).map_values(
            |l: LayoutView| pruned(l, disk)->0,
        ),
    decreases s.len(),
{
    let some = |l: LayoutView| pruned(l, disk) is Some;
    let get = |l: LayoutView| pruned(l, disk)->0;
    if s.len() == 0 {
        reveal(Seq::filter);
        assert(s.filter(some).map_values(get) =~= Seq::empty());
    } else {
        let d = s.drop_last();
        lemma_pruned_all(d, disk);
        assert(s =~= d.push(s.last()));
        d.lemma_filter_push(s.last(), some);
        if some(s.last()) {
            assert(s.filter(some).map_values(get) =~= d.filter(some).map_values(get).push(
                get(s.last()),
            ));
        }
    }
}

// ── Restoring ────────────────────────────────────────────────────────────
/// Whether a call gives a view back what was saved of it: the same ranges,
/// each with its anchor and its head, the same primary range where there is
/// one, and the same scroll position.
pub open spec fn gives_back(call: CallView, view: u64, v: LeafView) -> bool {
    call matches CallView::Apply { view: target, update } && {
        &&& target == view
        &&& update.ranges.len() == v.selections.len()
        &&& forall|i: int|
            0 <= i < v.selections.len() ==> (#[trigger] update.ranges[i]).anchor
                == v.selections[i].anchor && update.ranges[i].head == v.selections[i].head
        &&& v.primary < v.selections.len() ==> update.primary == v.primary
        &&& v.primary >= v.selections.len() && v.selections.len() > 0 ==> update.primary
            == v.selections.len() - 1
        &&& update.anchor == v.scroll_anchor
        &&& update.horizontal_offset == v.horizontal_offset
        &&& update.vertical_offset == v.vertical_offset
    }
}

/// What is set in a restored view is what was saved of it.
pub proof fn law_view_given_back(view: u64, v: LeafView)
    ensures
        gives_back(CallView::Apply { view, update: update_of(v) }, view, v),
{
}

/// Every view of the layout that is restored gets back its selections and its
/// scroll position: for the `f`th view, restored as `view`, there comes a point
/// at which a call is asked for that does so.
pub proof fn law_views_come_back(v: SessionView, rs: Seq<ReplyView>, f: int, view: u64)
    requires
        v.layout matches Some(l) && nothing_empty(l) && 0 <= f < leaves(l).len(),
        session_restored(v, rs) is Go,
        layout_rebuilt(v.layout, first_view(rs), rs.skip(before_layout(v))) matches Step::Go(
            placed,
            _,
        ) ==> placed[f].0 == Some(view),
    ensures
        exists|n: int|
            0 <= n <= rs.len() && (session_restored(v, #[trigger] rs.take(n)) matches Step::Need(
                call,
            ) && gives_back(call, view, leaves(v.layout->0)[f])),
{
    law_session_restored(v, rs);
    let step = layout_rebuilt(v.layout, first_view(rs), rs.skip(before_layout(v)));
    let placed = step->Go_0;
    let rest = step->Go_1;
    assert(placed_leaves(placed)[f] == placed[f].1);
    let k = lemma_given_index(placed, f);
    let n = rs.len() - rest.len() + k;
    let call = CallView::Apply { view: given(placed)[k].0, update: update_of(given(placed)[k].1) };
    assert(session_restored(v, rs.take(n)) == Step::<bool>::Need(call));
    law_view_given_back(view, leaves(v.layout->0)[f]);
    lemma_asked_in_range(v, rs, k);
}

/// A view that was restored is among those that were.
proof fn lemma_given_index(s: Seq<(Option<u64>, LeafView)>, f: int) -> (k: int)
    requires
        0 <= f < s.len(),
        s[f].0 is Some,
    ensures
        0 <= k < given(s).len(),
        given(s)[k] == (s[f].0->0, s[f].1),
    decreases s.len(),
{
    let d = s.drop_last();
    if f < s.len() - 1 {
        assert(d[f] == s[f]);
        lemma_given_index(d, f)
    } else {
        (given(s).len() - 1) as int
    }
}

/// There is a reply to each call that gives a view back what was saved of it.
proof fn lemma_asked_in_range(v: SessionView, rs: Seq<ReplyView>, k: int)
    requires
        v.layout matches Some(l) && nothing_empty(l),
        session_restored(v, rs) is Go,
        layout_rebuilt(v.layout, first_view(rs), rs.skip(before_layout(v))) matches Step::Go(
            placed,
            _,
        ) ==> 0 <= k < given(placed).len(),
    ensures
        layout_rebuilt(v.layout, first_view(rs), rs.skip(before_layout(v))) matches Step::Go(
            _,
            rest,
        ) ==> 0 <= rs.len() - rest.len() + k <= rs.len(),
{
    law_session_restored(v, rs);
    let step = layout_rebuilt(v.layout, first_view(rs), rs.skip(before_layout(v)));
    let (placed, rest) = (step->Go_0, step->Go_1);
    let at = rs.len() - rest.len();
    lemma_replies_used(v, rs);
}

/// A session that holds anything first asks for a view, and then for each of
/// its buffers to be opened there, in their order.
pub proof fn law_first_calls(v: SessionView, rs: Seq<ReplyView>, k: int)
    requires
        v.buffers.len() > 0 || v.layout is Some,
        rs.len() > 0,
        rs[0].id is Some,
        0 <= k < v.buffers.len() ==> rs.len() > k,
    ensures
        session_restored(v, Seq::empty()) == Step::<bool>::Need(CallView::NewFile),
        0 <= k < v.buffers.len() ==> session_restored(v, rs.take(1 + k)) == Step::<bool>::Need(
            CallView::Open { view: rs[0].id->0, path: v.buffers[k].path },
        ),
{
    if 0 <= k < v.buffers.len() {
        let cut = rs.take(1 + k);
        assert(cut[0] == rs[0]);
        lemma_buffers_opened(v.buffers, rs[0].id->0, cut.skip(1));
    }
}

/// A view is rebuilt by opening its document with the view focused and showing
/// it there; a document that cannot be opened leaves it out.
pub proof fn law_view_rebuilt(v: LeafView, focus: u64, rs: Seq<ReplyView>)
    ensures
        ({
            let l = LayoutView::View(v);
            let r = rebuilt(l, focus, rs);
            &&& rs.len() == 0 ==> r == Step::<Seq<(Option<u64>, LeafView)>>::Need(
                CallView::Open { view: focus, path: v.path },
            )
            &&& rs.len() > 0 && rs[0].id is None ==> r == Step::Go(
                seq![(None::<u64>, v)],
                rs.skip(1),
            )
            &&& rs.len() == 1 && rs[0].id is Some ==> r == Step::<
                Seq<(Option<u64>, LeafView)>,
            >::Need(CallView::Show { view: focus, document: rs[0].id->0 })
            &&& rs.len() > 1 && rs[0].id is Some ==> r == Step::Go(
                seq![(Some(focus), v)],
                rs.skip(2),
            )
        }),
{
    if rs.len() > 1 {
        assert(rs.skip(1).skip(1) =~= rs.skip(2));
    }
}

/// The document that a layout starts with is that of its first view.
pub proof fn law_first_document(l: LayoutView)
    requires
        nothing_empty(l),
    ensures
        leaves(l).len() > 0,
        first_path(l) == Some(leaves(l)[0].path),
    decreases l,
{
    if let LayoutView::Container { layout, children } = l {
        lemma_first_documents(children);
    }
}

proof fn lemma_first_documents(s: Seq<LayoutView>)
    requires
        none_empty(s),
    ensures
        s.len() == 0 ==> first_path_in(s) is None && leaves_all(s).len() == 0,
        s.len() > 0 ==> leaves_all(s).len() > 0 && first_path_in(s) == Some(leaves_all(s)[0].path),
    decreases s,
{
    if s.len() > 0 {
        lemma_first_documents(s.drop_last());
        law_first_document(s.last());
    }
}

/// The view that is split for the `i`th sibling: the one of the sibling before
/// it, by the replies so far.
pub open spec fn split_from(focus: u64, rs: Seq<ReplyView>, i: int) -> u64 {
    if i == 0 {
        focus
    } else {
        rs[2 * i - 1].id->0
    }
}

/// Siblings are split off one after the other, each from the one before it, in
/// the direction of their container and with the document that it starts with;
/// the replies say which view each of them gets.
pub proof fn law_siblings_split(
    s: Seq<LayoutView>,
    layout: Layout,
    focus: u64,
    rs: Seq<ReplyView>,
    i: int,
)
    requires
        forall|j: int| 0 <= j < s.len() ==> nothing_empty(#[trigger] s[j]),
        rs.len() >= 2 * s.len(),
        forall|j: int| 0 <= j < 2 * s.len() ==> (#[trigger] rs[j]).id is Some,
        0 <= i < s.len(),
    ensures
        anchors(s, layout, focus, rs.take(2 * i)) == Step::<Seq<Option<u64>>>::Need(
            CallView::Open { view: split_from(focus, rs, i), path: leaves(s[i])[0].path },
        ),
        anchors(s, layout, focus, rs.take(2 * i + 1)) == Step::<Seq<Option<u64>>>::Need(
            CallView::Split { view: split_from(focus, rs, i), document: rs[2 * i].id->0, layout },
        ),
        anchors(s, layout, focus, rs) matches Step::Go(views, rest) && views.len() == s.len()
            && views[i] == rs[2 * i + 1].id && rest == rs.skip(2 * s.len() as int),
    decreases s.len(),
{
    lemma_siblings(s, layout, focus, rs, i);
    assert(nothing_empty(s[0]));
    law_first_document(s[0]);
    let rest = s.skip(1);
    let more = rs.skip(2);
    assert(rs[0].id is Some && rs[1].id is Some);
    let next = rs[1].id->0;
    let (a, b) = (rs.take(2 * i), rs.take(2 * i + 1));
    if i > 0 {
        lemma_next_siblings(s, rs);
        law_siblings_split(rest, layout, next, more, i - 1);
        assert(rest[i - 1] == s[i]);
        assert(a[0] == rs[0] && a[1] == rs[1]);
        assert(b[0] == rs[0] && b[1] == rs[1]);
        assert(a.skip(1).skip(1) =~= more.take(2 * i - 2));
        assert(b.skip(1).skip(1) =~= more.take(2 * i - 1));
        assert(a.skip(1)[0] == rs[1] && b.skip(1)[0] == rs[1]);
        assert(more[2 * i - 2] == rs[2 * i]);
        if i > 1 {
            assert(more[2 * (i - 1) - 1] == rs[2 * i - 1]);
        }
        assert(split_from(next, more, i - 1) == split_from(focus, rs, i));
    } else {
        assert(a.len() == 0);
        assert(b.len() == 1 && b[0] == rs[0]);
    }
}

/// The views that siblings get are those of the replies.
proof fn lemma_siblings(
    s: Seq<LayoutView>,
    layout: Layout,
    focus: u64,
    rs: Seq<ReplyView>,
    i: int,
)
    requires
        forall|j: int| 0 <= j < s.len() ==> nothing_empty(#[trigger] s[j]),
        rs.len() >= 2 * s.len(),
        forall|j: int| 0 <= j < 2 * s.len() ==> (#[trigger] rs[j]).id is Some,
    ensures
        anchors(s, layout, focus, rs) matches Step::Go(views, rest) && {
            &&& views.len() == s.len()
            &&& rest == rs.skip(2 * s.len() as int)
            &&& 0 <= i < s.len() ==> views[i] == rs[2 * i + 1].id
        },
    decreases s.len(),
{
    if s.len() == 0 {
        assert(rs.skip(0) =~= rs);
    } else {
        assert(nothing_empty(s[0]));
        law_first_document(s[0]);
        let rest = s.skip(1);
        let more = rs.skip(2);
        assert(rs[0].id is Some && rs[1].id is Some);
        lemma_next_siblings(s, rs);
        lemma_siblings(rest, layout, rs[1].id->0, more, i - 1);
        assert(rs.skip(1).skip(1) =~= more);
        assert(rs.skip(1)[0] == rs[1]);
        assert(more.skip(2 * rest.len() as int) =~= rs.skip(2 * s.len() as int));
        if 0 < i < s.len() {
            assert(more[2 * (i - 1) + 1] == rs[2 * i + 1]);
        }
    }
}

/// What holds of siblings and replies holds of those that follow the first.
proof fn lemma_next_siblings(s: Seq<LayoutView>, rs: Seq<ReplyView>)
    requires
        s.len() > 0,
        forall|j: int| 0 <= j < s.len() ==> nothing_empty(#[trigger] s[j]),
        rs.len() >= 2 * s.len(),
        forall|j: int| 0 <= j < 2 * s.len() ==> (#[trigger] rs[j]).id is Some,
    ensures
        forall|j: int| 0 <= j < s.skip(1).len() ==> nothing_empty(#[trigger] s.skip(1)[j]),
        forall|j: int| 0 <= j < 2 * s.skip(1).len() ==> (#[trigger] rs.skip(2)[j]).id is Some,
{
    assert forall|j: int| 0 <= j < s.skip(1).len() implies nothing_empty(
        #[trigger] s.skip(1)[j],
    ) by {
        assert(s.skip(1)[j] == s[j + 1]);
    }
    assert forall|j: int| 0 <= j < 2 * s.skip(1).len() implies (#[trigger] rs.skip(2)[j]).id
        is Some by {
        assert(rs.skip(2)[j] == rs[j + 2]);
    }
}

/// A sibling whose document cannot be opened gets no view, and the next one is
/// split off in its place.
pub proof fn law_sibling_left_out(
    l: LayoutView,
    s: Seq<LayoutView>,
    layout: Layout,
    focus: u64,
    rs: Seq<ReplyView>,
)
    requires
        nothing_empty(l),
        rs.len() > 0,
        rs[0].id is None,
    ensures
        match anchors(s, layout, focus, rs.skip(1)) {
            Step::Need(c) => anchors(seq![l] + s, layout, focus, rs) == Step::<
                Seq<Option<u64>>,
            >::Need(c),
            Step::Go(views, rest) => anchors(seq![l] + s, layout, focus, rs) == Step::Go(
                seq![None] + views,
                rest,
            ),
        },
{
    law_first_document(l);
    let all = seq![l] + s;
    assert(all[0] == l);
    assert(all.skip(1) =~= s);
}

/// A container is rebuilt by splitting off a view for each of its children but
/// the first, in its direction, and only then filling them in; the first child
/// goes into the view that there was.
pub proof fn law_container_rebuilt(
    layout: Layout,
    children: Seq<LayoutView>,
    focus: u64,
    rs: Seq<ReplyView>,
)
    ensures
        match anchors(children.skip(1), layout, focus, rs) {
            Step::Need(c) => rebuilt(LayoutView::Container { layout, children }, focus, rs)
                == Step::<Seq<(Option<u64>, LeafView)>>::Need(c),
            Step::Go(views, rest) => rebuilt(LayoutView::Container { layout, children }, focus, rs)
                == filled(children, seq![Some(focus)] + views, rest),
        },
{
}

/// Children are filled in one after the other, each in its view; one without a
/// view is left out, with everything in it.
pub proof fn law_children_filled(
    s: Seq<LayoutView>,
    views: Seq<Option<u64>>,
    l: LayoutView,
    view: u64,
    rs: Seq<ReplyView>,
)
    requires
        views.len() == s.len(),
    ensures
        filled(Seq::empty(), Seq::empty(), rs) == Step::Go(
            Seq::<(Option<u64>, LeafView)>::empty(),
            rs,
        ),
        match filled(s, views, rs) {
            Step::Need(c) => filled(s.push(l), views.push(Some(view)), rs) == Step::<
                Seq<(Option<u64>, LeafView)>,
            >::Need(c),
            Step::Go(before, rest) => {
                &&& match rebuilt(l, view, rest) {
                    Step::Need(c) => filled(s.push(l), views.push(Some(view)), rs) == Step::<
                        Seq<(Option<u64>, LeafView)>,
                    >::Need(c),
                    Step::Go(more, end) => filled(s.push(l), views.push(Some(view)), rs)
                        == Step::Go(before + more, end),
                }
                &&& filled(s.push(l), views.push(None), rs) == Step::Go(
                    before + Seq::new(leaves(l).len(), |i: int| (None::<u64>, leaves(l)[i])),
                    rest,
                )
            },
        },
{
    assert(s.push(l).drop_last() =~= s);
    assert(views.push(Some(view)).drop_last() =~= views);
    assert(views.push(None::<u64>).drop_last() =~= views);
}

/// The cursor of a buffer is set where the editor has it, unless one of the
/// views that were restored shows it; a buffer without a cursor, or that is
/// not open, is left alone.
pub proof fn law_cursor_restored(
    b: BufferView,
    shown: Seq<(u64, LeafView)>,
    rs: Seq<ReplyView>,
)
    ensures
        b.cursor is None ==> cursor_restored(b, shown, rs) == Step::Go((), rs),
        b.cursor matches Some(cursor) ==> {
            let r = cursor_restored(b, shown, rs);
            &&& rs.len() == 0 ==> r == Step::<()>::Need(CallView::Find { path: b.path })
            &&& rs.len() > 0 && rs[0].id is None ==> r == Step::Go((), rs.skip(1))
            &&& rs.len() > 0 && rs[0].id is Some ==> {
                let found = rs[0];
                let hidden = forall|i: int, j: int|
                    0 <= i < found.views.len() && 0 <= j < shown.len() ==> #[trigger] found.views[i]
                        != (#[trigger] shown[j]).0;
                if found.views.len() > 0 && hidden {
                    &&& rs.len() == 1 ==> r == Step::<()>::Need(
                        CallView::SetCursor {
                            document: found.id->0,
                            view: found.views[0],
                            cursor,
                        },
                    )
                    &&& rs.len() > 1 ==> r == Step::Go((), rs.skip(2))
                } else {
                    r == Step::Go((), rs.skip(1))
                }
            }
        },
{
    if rs.len() > 1 {
        assert(rs.skip(1).skip(1) =~= rs.skip(2));
    }
    if rs.len() > 0 {
        let found = rs[0];
        let hidden = forall|i: int, j: int|
            0 <= i < found.views.len() && 0 <= j < shown.len() ==> #[trigger] found.views[i] != (
            #[trigger] shown[j]).0;
        if hidden {
            assert(unreferenced(found.views, shown));
        } else {
            let (i, j) = choose|i: int, j: int|
                0 <= i < found.views.len() && 0 <= j < shown.len() && #[trigger] found.views[i] == (
                #[trigger] shown[j]).0;
            assert(is_shown(found.views[i], shown));
            assert(!unreferenced(found.views, shown));
        }
    }
}

/// The view that is focused in the end: the one that was, if it was restored;
/// else the one that has its place among the restored ones, or the last.
pub proof fn law_focus_choice(
    placed: Seq<(Option<u64>, LeafView)>,
    focused: nat,
    rs: Seq<ReplyView>,
)
    ensures
        focused < placed.len() ==> (placed[focused as int].0 matches Some(view) ==> focus_target(
            placed,
            focused,
        ) == Some(view)),
        focused >= placed.len() || placed[focused as int].0 is None ==> {
            let n = given(placed).len();
            &&& n == 0 ==> focus_target(placed, focused) is None
            &&& 0 < n <= focused ==> focus_target(placed, focused) == Some(given(placed)[n - 1].0)
            &&& focused < n ==> focus_target(placed, focused) == Some(
                given(placed)[focused as int].0,
            )
        },
        focus_target(placed, focused) matches Some(view) ==> (rs.len() == 0 ==> refocused(
            placed,
            focused,
            rs,
        ) == Step::<()>::Need(CallView::Focus { view })),
        given(placed) == placed.filter(|p: (Option<u64>, LeafView)| p.0 is Some).map_values(
            |p: (Option<u64>, LeafView)| (p.0->0, p.1),
        ),
    decreases placed.len(),
{
    let some = |p: (Option<u64>, LeafView)| p.0 is Some;
    let get = |p: (Option<u64>, LeafView)| (p.0->0, p.1);
    if placed.len() == 0 {
        reveal(Seq::filter);
        assert(placed.filter(some).map_values(get) =~= Seq::empty());
    } else {
        let d = placed.drop_last();
        law_focus_choice(d, focused, rs);
        assert(placed =~= d.push(placed.last()));
        d.lemma_filter_push(placed.last(), some);
        if placed.last().0 is Some {
            assert(placed.filter(some).map_values(get) =~= d.filter(some).map_values(get).push(
                get(placed.last()),
            ));
        }
    }
}

// ── Where sessions are kept ──────────────────────────────────────────────
/// Whether there is a session, and which: the command line decides; without
/// it the environment does, where some words switch sessions on or off, in any
/// case of their letters, and any other text is a name.
pub proof fn law_chosen_session(name: Option<Seq<char>>, value: Seq<char>)
    ensures
        ({
            let v = ascii_lowercase(value);
            let off = v == "0"@ || v == "false"@ || v == "off"@ || v == "no"@;
            let on = v == ""@ || v == "1"@ || v == "true"@ || v == "on"@ || v == "yes"@;
            let r = chosen_session(SessionArgView::Unspecified, Some(value));
            &&& off ==> r is None
            &&& on && !off ==> r == Some(None::<Seq<char>>)
            &&& !on && !off ==> r == Some(Some(value))
        }),
        chosen_session(SessionArgView::Unspecified, None) == Some(None::<Seq<char>>),
        chosen_session(SessionArgView::Disabled, Some(value)) is None,
        chosen_session(SessionArgView::Disabled, None) is None,
        chosen_session(SessionArgView::Enabled(name), Some(value)) == Some(name),
        chosen_session(SessionArgView::Enabled(name), None) == Some(name),
{
}

/// Where sessions are kept: the directory of the command line, else that of
/// the environment, else one in the cache; and the session has the name that
/// was chosen, with the characters that are safe in it.
pub proof fn law_session_config(
    arg: SessionArgView,
    dir_arg: Option<Seq<char>>,
    env: Option<Seq<char>>,
    dir_env: Option<Seq<char>>,
    cache_dir: Seq<char>,
)
    ensures
        session_config(arg, dir_arg, env, dir_env, cache_dir) is None <==> chosen_session(arg, env)
            is None,
        session_config(arg, dir_arg, env, dir_env, cache_dir) matches Some(c) ==> {
            &&& dir_arg matches Some(d) ==> c.dir == d
            &&& dir_arg is None ==> (dir_env matches Some(d) ==> c.dir == d)
            &&& dir_arg is None && dir_env is None ==> c.dir == joined(cache_dir, "sessions"@)
            &&& chosen_session(arg, env) == Some(None::<Seq<char>>) ==> c.name is None
            &&& chosen_session(arg, env) matches Some(Some(n)) ==> c.name == Some(
                n.filter(
                    |x: char|
                        'a' <= x <= 'z' || 'A' <= x <= 'Z' || '0' <= x <= '9' || x == '-' || x == '_'
                            || x == '.',
                ),
            )
        },
{
    if let Some(Some(n)) = chosen_session(arg, env) {
        let safe = |x: char|
            'a' <= x <= 'z' || 'A' <= x <= 'Z' || '0' <= x <= '9' || x == '-' || x == '_' || x
                == '.';
        assert(safe =~= (|c: char| is_safe(c)));
    }
}

/// The key of a workspace: the FNV-1a hash of its path, in sixteen hexadecimal
/// digits; and the names of its session files.
pub proof fn law_session_names(workspace: Seq<char>, name: Seq<char>, bytes: Seq<u8>, b: u8)
    ensures
        fnv(Seq::empty()) == 0xcbf2_9ce4_8422_2325,
        fnv(bytes.push(b)) == (fnv(bytes) ^ (b as u64)).wrapping_mul(0x0000_0100_0000_01b3),
        workspace_key(workspace) == hex(fnv(encode_utf8(workspace)) as nat, 16),
        session_file_name(workspace, None) == workspace_key(workspace) + ".toml"@,
        session_file_name(workspace, Some(name)) == workspace_key(workspace) + "."@ + name
            + ".toml"@,
{
    assert(bytes.push(b).drop_last() =~= bytes);
}

/// A file is a session of a workspace if it is named after its key: the key
/// alone, or with a name behind a dot, and the suffix.
pub proof fn law_is_session_file(key: Seq<char>, name: Seq<char>, other: Seq<char>)
    ensures
        is_session_file(key + ".toml"@, key),
        is_session_file(key + "."@ + name + ".toml"@, key),
        is_session_file(other, key) ==> other.len() >= key.len() + 5 && other.take(
            key.len() as int,
        ) == key && other[key.len() as int] == '.' && other.skip(other.len() - 5) == ".toml"@,
{
    reveal_strlit(".toml");
    reveal_strlit(".");
    let a = key + ".toml"@;
    assert(a.subrange(0, key.len() as int) =~= key);
    assert(a.skip(key.len() as int) =~= ".toml"@);
    let b = key + "."@ + name + ".toml"@;
    assert(b.subrange(0, key.len() as int) =~= key);
    let rest = b.skip(key.len() as int);
    assert(rest =~= "."@ + name + ".toml"@);
    assert(rest.subrange(0, 1) =~= "."@);
    assert(rest.subrange(rest.len() - 5, rest.len() as int) =~= ".toml"@);
    if is_session_file(other, key) {
        assert(other.take(key.len() as int) =~= other.subrange(0, key.len() as int));
        let tail = other.skip(key.len() as int);
        if tail == ".toml"@ {
            assert(tail[0] == '.');
            assert(other.skip(other.len() - 5) =~= tail);
        } else {
            assert(tail.subrange(0, 1)[0] == '.');
            assert(tail[0] == '.');
            assert(tail.subrange(tail.len() - 5, tail.len() as int) =~= other.skip(
                other.len() - 5,
            ));
        }
        assert(other[key.len() as int] == tail[0]);
    }
}

/// When a file was modified, as a number; a time that is not known comes
/// before all others.
pub open spec fn time_of(f: SessionFile) -> int {
    match f.modified {
        Some(t) => t as int,
        None => -1,
    }
}

/// The file of a session: that of its name; without a name the one of the
/// workspace's that was modified last, the last of those if there are several,
/// and else the workspace's own.
pub proof fn law_managed_file(
    config: SessionConfigView,
    workspace: Seq<char>,
    files: Seq<SessionFile>,
    i: int,
)
    ensures
        config.name matches Some(n) ==> managed_file(config, workspace, files) == joined(
            config.dir,
            session_file_name(workspace, Some(n)),
        ),
        config.name is None && (forall|j: int|
            0 <= j < files.len() ==> !is_session_file(
                (#[trigger] files[j]).name@,
                workspace_key(workspace),
            )) ==> managed_file(config, workspace, files) == joined(
            config.dir,
            session_file_name(workspace, None),
        ),
        config.name is None && 0 <= i < files.len() && is_session_file(
            files[i].name@,
            workspace_key(workspace),
        ) && (forall|j: int|
            0 <= j < files.len() && j != i && is_session_file(
                (#[trigger] files[j]).name@,
                workspace_key(workspace),
            ) ==> time_of(files[j]) < time_of(files[i]) || (j < i && time_of(files[j]) == time_of(
                files[i],
            ))) ==> managed_file(config, workspace, files) == joined(config.dir, files[i].name@),
{
    let key = workspace_key(workspace);
    law_latest(files, key);
    let k = latest(files, key);
    if config.name is None && 0 <= i < files.len() && is_session_file(files[i].name@, key) && (
    forall|j: int|
        0 <= j < files.len() && j != i && is_session_file((#[trigger] files[j]).name@, key)
            ==> time_of(files[j]) < time_of(files[i]) || (j < i && time_of(files[j]) == time_of(
            files[i],
        ))) {
        if k != i {
            assert(is_session_file(files[k].name@, key));
            assert(not_older(files[i].modified, files[k].modified));
            if k < i {
                assert(!not_older(files[k].modified, files[i].modified));
            }
        }
    }
}

/// When a session is saved by itself: at least a second after the last write,
/// and only if its text is another one than was written last.
pub proof fn law_automatic_write(v: ManagerView, now: u64, c: Seq<char>)
    ensures
        automatic_write(v, now, None) is None,
        now >= v.last_write && now - v.last_write >= 1000 && signature_of(c) != v.last_signature
            ==> automatic_write(v, now, Some(c)) == Some(c),
        now < v.last_write || now - v.last_write < 1000 || signature_of(c) == v.last_signature
            ==> automatic_write(v, now, Some(c)) is None,
        write_due(v, now) == (now >= v.last_write && now - v.last_write >= 1000),
{
}

/// A write goes to the session's file, for which its directory is made first;
/// what was written is remembered only if that went well, the time in any
/// case.
pub proof fn law_written(v: ManagerView, w: SessionWrite, c: Seq<char>, ok: bool, now: u64)
    ensures
        writes(w, v, c) ==> w.file@ == v.file && w.signature == signature_of(c) && (match parent(
            v.file,
        ) {
            Some(d) => w.directory is Some && w.directory->0@ == d,
            None => w.directory is None,
        }),
        ({
            let r = after_write(v, w.signature, ok, now);
            &&& r.workspace == v.workspace && r.file == v.file && r.last_write == now
            &&& ok ==> r.last_signature == w.signature
            &&& !ok ==> r.last_signature == v.last_signature
        }),
{
}

/// Cursors are restored buffer by buffer, in their order.
pub proof fn law_cursors_in_turn(
    b: BufferView,
    s: Seq<BufferView>,
    shown: Seq<(u64, LeafView)>,
    rs: Seq<ReplyView>,
)
    ensures
        cursors_restored(Seq::empty(), shown, rs) == Step::Go((), rs),
        cursors_restored(seq![b] + s, shown, rs) == (match cursor_restored(b, shown, rs) {
            Step::Need(c) => Step::Need(c),
            Step::Go(_, rest) => cursors_restored(s, shown, rest),
        }),
{
    let all = seq![b] + s;
    assert(all[0] == b);
    assert(all.skip(1) =~= s);
}

/// A session without a layout has its buffers opened and their cursors
/// restored; no view is restored, and none is focused.
pub proof fn law_buffers_alone(v: SessionView, rs: Seq<ReplyView>)
    requires
        v.layout is None,
        v.buffers.len() > 0,
        rs.len() > v.buffers.len(),
    ensures
        session_restored(v, rs) == (match cursors_restored(
            v.buffers,
            Seq::empty(),
            rs.skip(1 + v.buffers.len() as int),
        ) {
            Step::Need(c) => Step::Need(c),
            Step::Go(_, rest) => Step::Go(false, rest),
        }),
{
    lemma_buffers_opened(v.buffers, first_view(rs), rs.skip(1));
    assert(rs.skip(1).skip(v.buffers.len() as int) =~= rs.skip(1 + v.buffers.len() as int));
    let none = Seq::<(Option<u64>, LeafView)>::empty();
    assert(given(none) =~= Seq::empty());
}

/// Once every view that was restored has been given back what was saved of it,
/// the cursors of the other buffers are restored, and then the focus: with `m`
/// replies, of which those behind the layout and the views are for that.
pub proof fn law_cursors_and_focus(v: SessionView, rs: Seq<ReplyView>, m: int)
    requires
        v.layout is Some,
        session_restored(v, rs) is Go,
        layout_rebuilt(v.layout, first_view(rs), rs.skip(before_layout(v))) matches Step::Go(
            placed,
            rest,
        ) ==> rs.len() - rest.len() + given(placed).len() <= m <= rs.len(),
    ensures
        layout_rebuilt(v.layout, first_view(rs), rs.skip(before_layout(v))) matches Step::Go(
            placed,
            rest,
        ) && {
            let shown = given(placed);
            let left = rest.take(m - (rs.len() - rest.len())).skip(shown.len() as int);
            session_restored(v, rs.take(m)) == (match cursors_restored(v.buffers, shown, left) {
                Step::Need(c) => Step::Need(c),
                Step::Go(_, end) => match focus_target(placed, v.focused_view) {
                    None => Step::Go(shown.len() > 0, end),
                    Some(view) => if end.len() == 0 {
                        Step::Need(CallView::Focus { view })
                    } else {
                        Step::Go(shown.len() > 0, end.skip(1))
                    },
                },
            })
        },
{
    lemma_tail_restored(v, rs, m);
}

} // verus!

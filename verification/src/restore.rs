//! Restoring a session into the editor.
//!
//! Restoring alternates between decisions and calls into the editor, some of
//! whose results the next decisions rest on. [`restore`] is given the replies
//! to the calls so far and says which call comes next, or that it is done.
use crate::args::Layout;
use crate::entry::Listings;
use crate::file_tree::{restored, FileTree, FileTreeState};
use crate::disk::Disk;
use crate::layout::{
    captured, focus_pruned, law_focus_kept, law_pruned, law_snapshot_layout, leaf_of, leaves, leaves_all, none_empty,
    nothing_empty, persisted, pruned, view_count, OpenView, Progress, SplitView,
};
use crate::navigate::{lemma_opened_depth, opened, FileChange};
use crate::path::{path_texts, PathBuf};
use crate::session::{
    buffer_views, lemma_shapes, shapes, BufferState, BufferView, LayoutState, LayoutView,
    LeafView, Pos, RangeState, Session, SessionView, SidebarState, ViewState,
};
use vstd::prelude::*;

verus! {

// ── Calls and replies ────────────────────────────────────────────────────
/// What is to be set in a view, as a mathematical value.
pub struct UpdateView {
    pub anchor: Option<Pos>,
    pub ranges: Seq<RangeState>,
    pub primary: nat,
    pub horizontal_offset: usize,
    pub vertical_offset: usize,
}

/// What is to be set in a view.
#[derive(Debug)]
pub struct ViewUpdate {
    /// Where the view is scrolled to; the start of the text if there is no
    /// such place.
    pub anchor: Option<Pos>,
    /// The selection; it stays as it is if there is none.
    pub ranges: Vec<RangeState>,
    /// Which of the ranges is the primary one.
    pub primary: usize,
    pub horizontal_offset: usize,
    pub vertical_offset: usize,
}

impl View for ViewUpdate {
    type V = UpdateView;

    open spec fn view(&self) -> UpdateView {
        UpdateView {
            anchor: self.anchor,
            ranges: self.ranges@,
            primary: self.primary as nat,
            horizontal_offset: self.horizontal_offset,
            vertical_offset: self.vertical_offset,
        }
    }
}

/// A call into the editor, as a mathematical value.
pub enum CallView {
    NewFile,
    Open { view: u64, path: Seq<char> },
    Split { view: u64, document: u64, layout: Layout },
    Show { view: u64, document: u64 },
    Apply { view: u64, update: UpdateView },
    Find { path: Seq<char> },
    SetCursor { document: u64, view: u64, cursor: Pos },
    Focus { view: u64 },
}

/// A call into the editor. Views and documents are told apart by numbers.
#[derive(Debug)]
pub enum Call {
    /// Make a view with an empty buffer and focus it. The reply has the view.
    NewFile,
    /// With `view` focused, open a document, without showing it. The reply
    /// has the document, unless it cannot be opened.
    Open { view: u64, path: PathBuf },
    /// With `view` focused, split it, showing `document` in the new view. The
    /// reply has the new view.
    Split { view: u64, document: u64, layout: Layout },
    /// With `view` focused, show `document` in it.
    Show { view: u64, document: u64 },
    /// Set the selection and the scroll position of a view.
    Apply { view: u64, update: ViewUpdate },
    /// Look for a document that is open. The reply has it, if there is one,
    /// with the views that it has a selection for.
    Find { path: PathBuf },
    /// Set the selection of a document for a view to a single cursor.
    SetCursor { document: u64, view: u64, cursor: Pos },
    /// Focus a view, with its cursor in the center.
    Focus { view: u64 },
}

impl View for Call {
    type V = CallView;

    open spec fn view(&self) -> CallView {
        match self {
            Call::NewFile => CallView::NewFile,
            Call::Open { view, path } => CallView::Open { view: *view, path: path@ },
            Call::Split { view, document, layout } => CallView::Split {
                view: *view,
                document: *document,
                layout: *layout,
            },
            Call::Show { view, document } => CallView::Show { view: *view, document: *document },
            Call::Apply { view, update } => CallView::Apply { view: *view, update: update@ },
            Call::Find { path } => CallView::Find { path: path@ },
            Call::SetCursor { document, view, cursor } => CallView::SetCursor {
                document: *document,
                view: *view,
                cursor: *cursor,
            },
            Call::Focus { view } => CallView::Focus { view: *view },
        }
    }
}

/// The reply to a call, as a mathematical value.
pub struct ReplyView {
    pub id: Option<u64>,
    pub views: Seq<u64>,
}

/// The reply to a call.
#[derive(Debug)]
pub struct Reply {
    /// The view or the document that the call gave.
    pub id: Option<u64>,
    /// The views that a document has a selection for.
    pub views: Vec<u64>,
}

impl View for Reply {
    type V = ReplyView;

    open spec fn view(&self) -> ReplyView {
        ReplyView { id: self.id, views: self.views@ }
    }
}

/// The replies that a list of values stands for.
pub open spec fn reply_views(s: Seq<Reply>) -> Seq<ReplyView> {
    Seq::new(s.len(), |i: int| s[i]@)
}

/// How far the replies go: to a call that has none yet, or to a result, with
/// the replies that are left.
pub enum Step<A> {
    Need(CallView),
    Go(A, Seq<ReplyView>),
}

/// The reply to a call.
pub open spec fn asked(call: CallView, rs: Seq<ReplyView>) -> Step<ReplyView> {
    if rs.len() == 0 {
        Step::Need(call)
    } else {
        Step::Go(rs[0], rs.skip(1))
    }
}

// ── The layout ───────────────────────────────────────────────────────────
/// The path that the first view of a layout shows.
pub open spec fn first_path(l: LayoutView) -> Option<Seq<char>>
    decreases l,
{
    match l {
        LayoutView::View(v) => Some(v.path),
        LayoutView::Container { layout, children } => first_path_in(children),
    }
}

/// The path that the first view of some layouts shows.
pub open spec fn first_path_in(s: Seq<LayoutView>) -> Option<Seq<char>>
    decreases s,
{
    if s.len() == 0 {
        None
    } else {
        match first_path_in(s.drop_last()) {
            Some(p) => Some(p),
            None => first_path(s.last()),
        }
    }
}

/// `first`, and then what a step gives.
pub open spec fn after<A>(first: Seq<A>, step: Step<Seq<A>>) -> Step<Seq<A>> {
    match step {
        Step::Need(c) => Step::Need(c),
        Step::Go(s, rs) => Step::Go(first + s, rs),
    }
}

/// One view for each of some layouts, split off one after the other from the
/// view `last`; none for a layout whose first document cannot be opened.
pub open spec fn anchors(
    s: Seq<LayoutView>,
    layout: Layout,
    last: u64,
    rs: Seq<ReplyView>,
) -> Step<Seq<Option<u64>>>
    decreases s.len(),
{
    if s.len() == 0 {
        Step::Go(Seq::empty(), rs)
    } else {
        match first_path(s[0]) {
            None => after(seq![None], anchors(s.skip(1), layout, last, rs)),
            Some(path) => match asked(CallView::Open { view: last, path }, rs) {
                Step::Need(c) => Step::Need(c),
                Step::Go(opened, rs1) => match opened.id {
                    None => after(seq![None], anchors(s.skip(1), layout, last, rs1)),
                    Some(document) => match asked(
                        CallView::Split { view: last, document, layout },
                        rs1,
                    ) {
                        Step::Need(c) => Step::Need(c),
                        Step::Go(split, rs2) => match split.id {
                            None => after(seq![None], anchors(s.skip(1), layout, last, rs2)),
                            Some(view) => after(
                                seq![Some(view)],
                                anchors(s.skip(1), layout, view, rs2),
                            ),
                        },
                    },
                },
            },
        }
    }
}

/// What layouts show that are left out: none of it has a view.
pub open spec fn unplaced(s: Seq<LeafView>) -> Seq<(Option<u64>, LeafView)> {
    Seq::new(s.len(), |i: int| (None, s[i]))
}

/// Rebuilds a layout in the view `focus`. All sibling views of a container are
/// made before any of them is filled in. The result is what each view of the
/// layout shows, in their order, with the view that it was restored in, if it
/// was.
pub open spec fn rebuilt(l: LayoutView, focus: u64, rs: Seq<ReplyView>) -> Step<
    Seq<(Option<u64>, LeafView)>,
>
    decreases l, 0int,
{
    match l {
        LayoutView::View(v) => match asked(CallView::Open { view: focus, path: v.path }, rs) {
            Step::Need(c) => Step::Need(c),
            Step::Go(opened, rs1) => match opened.id {
                None => Step::Go(seq![(None, v)], rs1),
                Some(document) => match asked(CallView::Show { view: focus, document }, rs1) {
                    Step::Need(c) => Step::Need(c),
                    Step::Go(_, rs2) => Step::Go(seq![(Some(focus), v)], rs2),
                },
            },
        },
        LayoutView::Container { layout, children } => match anchors(
            children.skip(1),
            layout,
            focus,
            rs,
        ) {
            Step::Need(c) => Step::Need(c),
            Step::Go(more, rs1) => filled(children, seq![Some(focus)] + more, rs1),
        },
    }
}

/// Rebuilds some layouts, each in its view; one without a view is left out.
pub open spec fn filled(
    s: Seq<LayoutView>,
    views: Seq<Option<u64>>,
    rs: Seq<ReplyView>,
) -> Step<Seq<(Option<u64>, LeafView)>>
    decreases s, 1int,
{
    if s.len() == 0 || views.len() != s.len() {
        Step::Go(Seq::empty(), rs)
    } else {
        match filled(s.drop_last(), views.drop_last(), rs) {
            Step::Need(c) => Step::Need(c),
            Step::Go(before, rs1) => match views.last() {
                None => Step::Go(before + unplaced(leaves(s.last())), rs1),
                Some(view) => after(before, rebuilt(s.last(), view, rs1)),
            },
        }
    }
}

// ── Everything ───────────────────────────────────────────────────────────
/// The views that were restored, with what they show.
pub open spec fn given(s: Seq<(Option<u64>, LeafView)>) -> Seq<(u64, LeafView)>
    decreases s.len(),
{
    if s.len() == 0 {
        Seq::empty()
    } else {
        match s.last().0 {
            Some(view) => given(s.drop_last()).push((view, s.last().1)),
            None => given(s.drop_last()),
        }
    }
}

/// What is to be set in a view.
pub open spec fn update_of(v: LeafView) -> UpdateView {
    UpdateView {
        anchor: v.scroll_anchor,
        ranges: v.selections,
        primary: if v.selections.len() == 0 {
            0
        } else if v.primary < v.selections.len() {
            v.primary as nat
        } else {
            (v.selections.len() - 1) as nat
        },
        horizontal_offset: v.horizontal_offset,
        vertical_offset: v.vertical_offset,
    }
}

/// Opens the buffers.
pub open spec fn buffers_opened(s: Seq<BufferView>, focus: u64, rs: Seq<ReplyView>) -> Step<()>
    decreases s.len(),
{
    if s.len() == 0 {
        Step::Go((), rs)
    } else {
        match asked(CallView::Open { view: focus, path: s[0].path }, rs) {
            Step::Need(c) => Step::Need(c),
            Step::Go(_, rs1) => buffers_opened(s.skip(1), focus, rs1),
        }
    }
}

/// Restores selections and scroll positions.
pub open spec fn views_applied(s: Seq<(u64, LeafView)>, rs: Seq<ReplyView>) -> Step<()>
    decreases s.len(),
{
    if s.len() == 0 {
        Step::Go((), rs)
    } else {
        match asked(CallView::Apply { view: s[0].0, update: update_of(s[0].1) }, rs) {
            Step::Need(c) => Step::Need(c),
            Step::Go(_, rs1) => views_applied(s.skip(1), rs1),
        }
    }
}

/// Whether a view is among those that were restored.
pub open spec fn is_shown(view: u64, shown: Seq<(u64, LeafView)>) -> bool {
    exists|i: int| 0 <= i < shown.len() && (#[trigger] shown[i]).0 == view
}

/// Whether none of the restored views has a selection of a document.
pub open spec fn unreferenced(views: Seq<u64>, shown: Seq<(u64, LeafView)>) -> bool {
    forall|i: int| 0 <= i < views.len() ==> !is_shown(#[trigger] views[i], shown)
}

/// Restores the cursor of a buffer, unless a restored view shows it.
pub open spec fn cursor_restored(
    b: BufferView,
    shown: Seq<(u64, LeafView)>,
    rs: Seq<ReplyView>,
) -> Step<()> {
    match b.cursor {
        None => Step::Go((), rs),
        Some(cursor) => match asked(CallView::Find { path: b.path }, rs) {
            Step::Need(c) => Step::Need(c),
            Step::Go(found, rs1) => match found.id {
                None => Step::Go((), rs1),
                Some(document) => if found.views.len() > 0 && unreferenced(found.views, shown) {
                    match asked(
                        CallView::SetCursor { document, view: found.views[0], cursor },
                        rs1,
                    ) {
                        Step::Need(c) => Step::Need(c),
                        Step::Go(_, rs2) => Step::Go((), rs2),
                    }
                } else {
                    Step::Go((), rs1)
                },
            },
        },
    }
}

/// Restores the cursors of the buffers.
pub open spec fn cursors_restored(
    s: Seq<BufferView>,
    shown: Seq<(u64, LeafView)>,
    rs: Seq<ReplyView>,
) -> Step<()>
    decreases s.len(),
{
    if s.len() == 0 {
        Step::Go((), rs)
    } else {
        match cursor_restored(s[0], shown, rs) {
            Step::Need(c) => Step::Need(c),
            Step::Go(_, rs1) => cursors_restored(s.skip(1), shown, rs1),
        }
    }
}

/// The view to focus: the one in which the focused view of the layout was
/// restored; if it was not, the one that has its index among those that were,
/// or else the last of them.
pub open spec fn focus_target(placed: Seq<(Option<u64>, LeafView)>, focused: nat) -> Option<u64> {
    if focused < placed.len() && placed[focused as int].0 is Some {
        placed[focused as int].0
    } else if focused < given(placed).len() {
        Some(given(placed)[focused as int].0)
    } else if given(placed).len() > 0 {
        Some(given(placed).last().0)
    } else {
        None
    }
}

/// Focuses the view that was focused.
pub open spec fn refocused(
    placed: Seq<(Option<u64>, LeafView)>,
    focused: nat,
    rs: Seq<ReplyView>,
) -> Step<()> {
    match focus_target(placed, focused) {
        None => Step::Go((), rs),
        Some(view) => match asked(CallView::Focus { view }, rs) {
            Step::Need(c) => Step::Need(c),
            Step::Go(_, rs1) => Step::Go((), rs1),
        },
    }
}

/// The views of a session, rebuilt.
pub open spec fn layout_rebuilt(l: Option<LayoutView>, focus: u64, rs: Seq<ReplyView>) -> Step<
    Seq<(Option<u64>, LeafView)>,
> {
    match l {
        Some(l) => rebuilt(l, focus, rs),
        None => Step::Go(Seq::empty(), rs),
    }
}

/// A session restored: whether any view was.
pub open spec fn session_restored(v: SessionView, rs: Seq<ReplyView>) -> Step<bool> {
    if v.buffers.len() == 0 && v.layout is None {
        Step::Go(false, rs)
    } else {
        match asked(CallView::NewFile, rs) {
            Step::Need(c) => Step::Need(c),
            Step::Go(made, rs1) => {
                let focus = match made.id {
                    Some(view) => view,
                    None => 0,
                };
                match buffers_opened(v.buffers, focus, rs1) {
                    Step::Need(c) => Step::Need(c),
                    Step::Go(_, rs2) => match layout_rebuilt(v.layout, focus, rs2) {
                        Step::Need(c) => Step::Need(c),
                        Step::Go(placed, rs3) => match views_applied(given(placed), rs3) {
                            Step::Need(c) => Step::Need(c),
                            Step::Go(_, rs4) => match cursors_restored(
                                v.buffers,
                                given(placed),
                                rs4,
                            ) {
                                Step::Need(c) => Step::Need(c),
                                Step::Go(_, rs5) => match refocused(placed, v.focused_view, rs5) {
                                    Step::Need(c) => Step::Need(c),
                                    Step::Go(_, rs6) => Step::Go(given(placed).len() > 0, rs6),
                                },
                            },
                        },
                    },
                }
            },
        }
    }
}

// ── Doing it ─────────────────────────────────────────────────────────────
/// The replies that are left.
spec fn left(replies: Seq<Reply>, at: usize) -> Seq<ReplyView> {
    reply_views(replies).skip(at as int)
}

/// Takes the next reply, if there is one.
fn next_reply<'a>(replies: &'a Vec<Reply>, at: &mut usize) -> (r: Option<&'a Reply>)
    requires
        *old(at) <= replies@.len(),
    ensures
        *final(at) <= replies@.len(),
        match r {
            Some(x) => left(replies@, *old(at)).len() > 0 && x@ == left(replies@, *old(at))[0]
                && left(replies@, *final(at)) == left(replies@, *old(at)).skip(1),
            None => left(replies@, *old(at)).len() == 0,
        },
{
    let len = replies.len();
    if *at >= len {
        return None;
    }
    let i = *at;
    *at = i + 1;
    assert(left(replies@, *at) =~= left(replies@, i).skip(1));
    Some(&replies[i])
}

/// The path that the first view of a layout shows.
fn first_leaf_path(node: &LayoutState) -> (r: Option<&PathBuf>)
    ensures
        match r {
            Some(p) => first_path(node@) == Some(p@),
            None => first_path(node@) is None,
        },
    decreases *node,
{
    match node {
        LayoutState::View(view) => Some(&view.path),
        LayoutState::Container { layout, children } => {
            let ghost s = shapes(children@);
            proof {
                lemma_shapes(children@);
            }
            let mut i: usize = 0;
            while i < children.len()
                invariant
                    *node is Container,
                    node->children == *children,
                    s == shapes(children@),
                    s.len() == children@.len(),
                    forall|k: int| 0 <= k < s.len() ==> #[trigger] s[k] == children@[k].shape(),
                    i <= children@.len(),
                    first_path_in(s.take(i as int)) is None,
                decreases children@.len() - i,
            {
                assert(s.take(i + 1).drop_last() =~= s.take(i as int));
                assert(s.take(i + 1).last() == s[i as int]);
                assert(decreases_to!(*node => node->children));
                assert(decreases_to!(node->children => node->children@));
                assert(decreases_to!(node->children@ => node->children@[i as int]));
                if let Some(p) = first_leaf_path(&children[i]) {
                    proof {
                        lemma_first_path_stays(s, i + 1);
                    }
                    return Some(p);
                }
                i += 1;
            }
            assert(s.take(i as int) =~= s);
            None
        },
    }
}

/// A first path stays the first, whatever follows.
proof fn lemma_first_path_stays(s: Seq<LayoutView>, i: int)
    requires
        0 <= i <= s.len(),
        first_path_in(s.take(i)) is Some,
    ensures
        first_path_in(s) == first_path_in(s.take(i)),
    decreases s.len(),
{
    if i == s.len() {
        assert(s.take(i) =~= s);
    } else {
        assert(s.drop_last().take(i) =~= s.take(i));
        lemma_first_path_stays(s.drop_last(), i);
    }
}

proof fn lemma_after<A>(a: Seq<A>, b: Seq<A>, step: Step<Seq<A>>)
    ensures
        after(a, after(b, step)) == after(a + b, step),
        after(Seq::<A>::empty(), step) == step,
{
    if let Step::Go(s, rs) = step {
        assert(a + (b + s) =~= (a + b) + s);
        assert(Seq::<A>::empty() + s =~= s);
    }
}

/// Makes one view for each child of a container but the first.
fn make_anchors(
    children: &Vec<LayoutState>,
    layout: Layout,
    focus: u64,
    replies: &Vec<Reply>,
    at: &mut usize,
) -> (r: Result<Vec<Option<u64>>, Call>)
    requires
        children@.len() > 0,
        *old(at) <= replies@.len(),
    ensures
        *final(at) <= replies@.len(),
        match anchors(shapes(children@).skip(1), layout, focus, left(replies@, *old(at))) {
            Step::Need(c) => r matches Err(call) && call@ == c,
            Step::Go(views, rs) => r matches Ok(v) && v@ == views && left(replies@, *final(at))
                == rs,
        },
{
    let ghost s = shapes(children@).skip(1);
    let ghost start = left(replies@, *at);
    let mut last = focus;
    let mut more: Vec<Option<u64>> = Vec::new();
    let mut i: usize = 1;
    proof {
        lemma_shapes(children@);
        assert(s.skip(0) =~= s);
        lemma_after(Seq::empty(), Seq::empty(), anchors(s, layout, focus, start));
    }
    while i < children.len()
        invariant
            1 <= i <= children@.len(),
            *at <= replies@.len(),
            start == left(replies@, *old(at)),
            s == shapes(children@).skip(1),
            shapes(children@).len() == children@.len(),
            forall|k: int|
                0 <= k < children@.len() ==> #[trigger] shapes(children@)[k]
                    == children@[k].shape(),
            anchors(s, layout, focus, start) == after(
                more@,
                anchors(s.skip(i - 1), layout, last, left(replies@, *at)),
            ),
        decreases children@.len() - i,
    {
        let ghost rest = s.skip(i - 1);
        let ghost before = more@;
        let ghost rs = left(replies@, *at);
        proof {
            assert(rest[0] == shapes(children@)[i as int]);
            assert(rest.skip(1) =~= s.skip(i as int));
        }
        let mut anchor: Option<u64> = None;
        let ghost from = last;
        if let Some(path) = first_leaf_path(&children[i]) {
            let opened = match next_reply(replies, at) {
                Some(reply) => reply.id,
                None => {
                    return Err(Call::Open { view: last, path: path.clone() });
                },
            };
            if let Some(document) = opened {
                anchor = match next_reply(replies, at) {
                    Some(reply) => reply.id,
                    None => {
                        return Err(Call::Split { view: last, document, layout });
                    },
                };
            }
        }
        if let Some(view) = anchor {
            last = view;
        }
        more.push(anchor);
        proof {
            assert(before + seq![anchor] =~= more@);
            let then = anchors(s.skip(i as int), layout, last, left(replies@, *at));
            assert(anchors(rest, layout, from, rs) == after(seq![anchor], then));
            lemma_after(before, seq![anchor], then);
        }
        i += 1;
    }
    assert(s.skip(i - 1) =~= Seq::empty());
    assert(more@ + Seq::empty() =~= more@);
    Ok(more)
}

/// Views with what they show, as mathematical values.
spec fn shown_views(s: Seq<(u64, &ViewState)>) -> Seq<(u64, LeafView)> {
    Seq::new(s.len(), |i: int| (s[i].0, s[i].1@))
}

/// What the views of a layout show, with the view that each was restored in.
spec fn placed_views(s: Seq<(Option<u64>, &ViewState)>) -> Seq<(Option<u64>, LeafView)> {
    Seq::new(s.len(), |i: int| (s[i].0, s[i].1@))
}

/// Leaves a layout out.
fn leave_out<'a>(node: &'a LayoutState) -> (r: Vec<(Option<u64>, &'a ViewState)>)
    ensures
        placed_views(r@) == unplaced(leaves(node@)),
    decreases *node,
{
    let mut out: Vec<(Option<u64>, &'a ViewState)> = Vec::new();
    match node {
        LayoutState::View(view) => {
            out.push((None, view));
            assert(placed_views(out@) =~= unplaced(seq![view@]));
        },
        LayoutState::Container { layout, children } => {
            let ghost s = shapes(children@);
            proof {
                lemma_shapes(children@);
            }
            let mut i: usize = 0;
            assert(s.take(0) =~= Seq::empty());
            assert(placed_views(out@) =~= unplaced(leaves_all(s.take(0))));
            while i < children.len()
                invariant
                    *node is Container,
                    node->children == *children,
                    s == shapes(children@),
                    s.len() == children@.len(),
                    forall|k: int| 0 <= k < s.len() ==> #[trigger] s[k] == children@[k].shape(),
                    i <= s.len(),
                    placed_views(out@) == unplaced(leaves_all(s.take(i as int))),
                decreases children@.len() - i,
            {
                let ghost before = out@;
                proof {
                    assert(s.take(i + 1).drop_last() =~= s.take(i as int));
                    assert(s.take(i + 1).last() == s[i as int]);
                    assert(decreases_to!(*node => node->children));
                    assert(decreases_to!(node->children => node->children@));
                    assert(decreases_to!(node->children@ => node->children@[i as int]));
                }
                let mut more = leave_out(&children[i]);
                let ghost these = more@;
                out.append(&mut more);
                assert(placed_views(out@) =~= placed_views(before) + placed_views(these));
                assert(placed_views(out@) =~= unplaced(leaves_all(s.take(i + 1))));
                i += 1;
            }
            assert(s.take(i as int) =~= s);
        },
    }
    out
}

/// Rebuilds the split tree. All sibling anchors of a container are created up
/// front (before any child subtree is filled in), which reproduces the saved
/// structure exactly.
fn restore_layout<'a>(
    node: &'a LayoutState,
    focus: u64,
    replies: &Vec<Reply>,
    at: &mut usize,
) -> (r: Result<Vec<(Option<u64>, &'a ViewState)>, Call>)
    requires
        nothing_empty(node@),
        *old(at) <= replies@.len(),
    ensures
        *final(at) <= replies@.len(),
        match rebuilt(node@, focus, left(replies@, *old(at))) {
            Step::Need(c) => r matches Err(call) && call@ == c,
            Step::Go(placed, rs) => r matches Ok(v) && placed_views(v@) == placed && left(
                replies@,
                *final(at),
            ) == rs,
        },
    decreases *node,
{
    match node {
        LayoutState::View(view) => {
            let mut out: Vec<(Option<u64>, &'a ViewState)> = Vec::new();
            let opened = match next_reply(replies, at) {
                Some(reply) => reply.id,
                None => {
                    return Err(Call::Open { view: focus, path: view.path.clone() });
                },
            };
            match opened {
                None => {
                    out.push((None, view));
                    assert(placed_views(out@) =~= seq![(None, view@)]);
                },
                Some(document) => {
                    if next_reply(replies, at).is_none() {
                        return Err(Call::Show { view: focus, document });
                    }
                    out.push((Some(focus), view));
                    assert(placed_views(out@) =~= seq![(Some(focus), view@)]);
                },
            }
            Ok(out)
        },
        LayoutState::Container { layout, children } => {
            let ghost s = shapes(children@);
            proof {
                lemma_shapes(children@);
            }
            let more = match make_anchors(children, *layout, focus, replies, at) {
                Ok(more) => more,
                Err(call) => {
                    return Err(call);
                },
            };
            proof {
                lemma_anchor_count(s.skip(1), *layout, focus, left(replies@, *old(at)));
            }
            let ghost views = seq![Some(focus)] + more@;
            let ghost start = left(replies@, *at);
            let mut out: Vec<(Option<u64>, &'a ViewState)> = Vec::new();
            let mut i: usize = 0;
            assert(placed_views(out@) =~= Seq::empty());
            assert(s.take(0) =~= Seq::empty());
            while i < children.len()
                invariant
                    *node is Container,
                    node->children == *children,
                    s == shapes(children@),
                    s.len() == children@.len(),
                    forall|k: int| 0 <= k < s.len() ==> #[trigger] s[k] == children@[k].shape(),
                    none_empty(s),
                    views == seq![Some(focus)] + more@,
                    views.len() == s.len(),
                    i <= s.len(),
                    *at <= replies@.len(),
                    rebuilt(node@, focus, left(replies@, *old(at))) == filled(s, views, start),
                    filled(s.take(i as int), views.take(i as int), start) == Step::Go(
                        placed_views(out@),
                        left(replies@, *at),
                    ),
                decreases children@.len() - i,
            {
                proof {
                    assert(s.take(i + 1).drop_last() =~= s.take(i as int));
                    assert(s.take(i + 1).last() == s[i as int]);
                    assert(views.take(i + 1).drop_last() =~= views.take(i as int));
                    assert(views.take(i + 1).last() == views[i as int]);
                    lemma_none_empty(s, i as int);
                }
                let view = if i == 0 {
                    Some(focus)
                } else {
                    more[i - 1]
                };
                assert(view == views[i as int]);
                assert(decreases_to!(*node => node->children));
                assert(decreases_to!(node->children => node->children@));
                assert(decreases_to!(node->children@ => node->children@[i as int]));
                let ghost before = out@;
                if let Some(anchor) = view {
                    match restore_layout(&children[i], anchor, replies, at) {
                        Err(call) => {
                            proof {
                                lemma_filled_need(s, views, i + 1, start);
                            }
                            return Err(call);
                        },
                        Ok(mut placed) => {
                            let ghost these = placed@;
                            out.append(&mut placed);
                            assert(placed_views(out@) =~= placed_views(before) + placed_views(
                                these,
                            ));
                        },
                    }
                } else {
                    let mut missing = leave_out(&children[i]);
                    let ghost these = missing@;
                    out.append(&mut missing);
                    assert(placed_views(out@) =~= placed_views(before) + placed_views(these));
                }
                i += 1;
            }
            assert(s.take(i as int) =~= s);
            assert(views.take(i as int) =~= views);
            Ok(out)
        },
    }
}

/// There is one answer for each layout.
proof fn lemma_anchor_count(s: Seq<LayoutView>, layout: Layout, last: u64, rs: Seq<ReplyView>)
    ensures
        anchors(s, layout, last, rs) matches Step::Go(views, _) ==> views.len() == s.len(),
    decreases s.len(),
{
    if s.len() > 0 {
        match first_path(s[0]) {
            None => lemma_anchor_count(s.skip(1), layout, last, rs),
            Some(path) => if rs.len() > 0 {
                match rs[0].id {
                    None => lemma_anchor_count(s.skip(1), layout, last, rs.skip(1)),
                    Some(document) => if rs.skip(1).len() > 0 {
                        let split = rs.skip(1)[0];
                        let rs2 = rs.skip(1).skip(1);
                        match split.id {
                            None => lemma_anchor_count(s.skip(1), layout, last, rs2),
                            Some(view) => lemma_anchor_count(s.skip(1), layout, view, rs2),
                        }
                    },
                }
            },
        }
    }
}

proof fn lemma_none_empty(s: Seq<LayoutView>, i: int)
    requires
        none_empty(s),
        0 <= i < s.len(),
    ensures
        nothing_empty(s[i]),
    decreases s.len(),
{
    if i < s.len() - 1 {
        lemma_none_empty(s.drop_last(), i);
    }
}

/// A call that is needed early on is needed.
proof fn lemma_filled_need(
    s: Seq<LayoutView>,
    views: Seq<Option<u64>>,
    i: int,
    rs: Seq<ReplyView>,
)
    requires
        0 <= i <= s.len(),
        views.len() == s.len(),
        filled(s.take(i), views.take(i), rs) is Need,
    ensures
        filled(s, views, rs) == filled(s.take(i), views.take(i), rs),
    decreases s.len(),
{
    if i == s.len() {
        assert(s.take(i) =~= s);
        assert(views.take(i) =~= views);
    } else {
        assert(s.drop_last().take(i) =~= s.take(i));
        assert(views.drop_last().take(i) =~= views.take(i));
        lemma_filled_need(s.drop_last(), views.drop_last(), i, rs);
    }
}

/// What is to be set in a view.
fn view_update(view: &ViewState) -> (r: ViewUpdate)
    ensures
        r@ == update_of(view@),
{
    let mut ranges: Vec<RangeState> = Vec::new();
    let mut i: usize = 0;
    while i < view.selections.len()
        invariant
            i <= view.selections@.len(),
            ranges@ == view.selections@.take(i as int),
        decreases view.selections@.len() - i,
    {
        ranges.push(view.selections[i]);
        assert(ranges@ =~= view.selections@.take(i + 1));
        i += 1;
    }
    assert(ranges@ =~= view.selections@);
    let primary = if ranges.len() == 0 {
        0
    } else if view.primary < ranges.len() {
        view.primary
    } else {
        ranges.len() - 1
    };
    ViewUpdate {
        anchor: view.scroll_anchor,
        ranges,
        primary,
        horizontal_offset: view.horizontal_offset,
        vertical_offset: view.vertical_offset,
    }
}

fn open_buffers(buffers: &Vec<BufferState>, focus: u64, replies: &Vec<Reply>, at: &mut usize) -> (r:
    Result<(), Call>)
    requires
        *old(at) <= replies@.len(),
    ensures
        *final(at) <= replies@.len(),
        match buffers_opened(buffer_views(buffers@), focus, left(replies@, *old(at))) {
            Step::Need(c) => r matches Err(call) && call@ == c,
            Step::Go(_, rs) => r is Ok && left(replies@, *final(at)) == rs,
        },
{
    let ghost s = buffer_views(buffers@);
    let ghost start = left(replies@, *at);
    let mut i: usize = 0;
    assert(s.skip(0) =~= s);
    while i < buffers.len()
        invariant
            i <= buffers@.len(),
            s == buffer_views(buffers@),
            start == left(replies@, *old(at)),
            *at <= replies@.len(),
            buffers_opened(s, focus, start) == buffers_opened(
                s.skip(i as int),
                focus,
                left(replies@, *at),
            ),
        decreases buffers@.len() - i,
    {
        assert(s.skip(i as int)[0] == buffers@[i as int]@);
        assert(s.skip(i as int).skip(1) =~= s.skip(i + 1));
        if next_reply(replies, at).is_none() {
            return Err(Call::Open { view: focus, path: buffers[i].path.clone() });
        }
        i += 1;
    }
    assert(s.skip(i as int) =~= Seq::empty());
    Ok(())
}

fn apply_views(shown: &Vec<(u64, &ViewState)>, replies: &Vec<Reply>, at: &mut usize) -> (r: Result<
    (),
    Call,
>)
    requires
        *old(at) <= replies@.len(),
    ensures
        *final(at) <= replies@.len(),
        match views_applied(shown_views(shown@), left(replies@, *old(at))) {
            Step::Need(c) => r matches Err(call) && call@ == c,
            Step::Go(_, rs) => r is Ok && left(replies@, *final(at)) == rs,
        },
{
    let ghost s = shown_views(shown@);
    let ghost start = left(replies@, *at);
    let mut i: usize = 0;
    assert(s.skip(0) =~= s);
    while i < shown.len()
        invariant
            i <= shown@.len(),
            s == shown_views(shown@),
            start == left(replies@, *old(at)),
            *at <= replies@.len(),
            views_applied(s, start) == views_applied(s.skip(i as int), left(replies@, *at)),
        decreases shown@.len() - i,
    {
        assert(s.skip(i as int)[0] == (shown@[i as int].0, shown@[i as int].1@));
        assert(s.skip(i as int).skip(1) =~= s.skip(i + 1));
        if next_reply(replies, at).is_none() {
            return Err(Call::Apply { view: shown[i].0, update: view_update(shown[i].1) });
        }
        i += 1;
    }
    assert(s.skip(i as int) =~= Seq::empty());
    Ok(())
}

/// Whether none of the restored views is among `views`.
fn none_shown(views: &Vec<u64>, shown: &Vec<(u64, &ViewState)>) -> (r: bool)
    ensures
        r == unreferenced(views@, shown_views(shown@)),
{
    let ghost s = shown_views(shown@);
    let mut i: usize = 0;
    while i < views.len()
        invariant
            i <= views@.len(),
            s == shown_views(shown@),
            forall|k: int| 0 <= k < i ==> !is_shown(#[trigger] views@[k], s),
        decreases views@.len() - i,
    {
        let mut k: usize = 0;
        while k < shown.len()
            invariant
                i < views@.len(),
                k <= shown@.len(),
                s == shown_views(shown@),
                forall|m: int| 0 <= m < k ==> (#[trigger] s[m]).0 != views@[i as int],
            decreases shown@.len() - k,
        {
            if shown[k].0 == views[i] {
                assert(s[k as int].0 == views@[i as int]);
                assert(is_shown(views@[i as int], s));
                return false;
            }
            k += 1;
        }
        i += 1;
    }
    true
}

fn restore_cursor(
    buffer: &BufferState,
    shown: &Vec<(u64, &ViewState)>,
    replies: &Vec<Reply>,
    at: &mut usize,
) -> (r: Result<(), Call>)
    requires
        *old(at) <= replies@.len(),
    ensures
        *final(at) <= replies@.len(),
        match cursor_restored(buffer@, shown_views(shown@), left(replies@, *old(at))) {
            Step::Need(c) => r matches Err(call) && call@ == c,
            Step::Go(_, rs) => r is Ok && left(replies@, *final(at)) == rs,
        },
{
    let cursor = match buffer.cursor {
        Some(cursor) => cursor,
        None => {
            return Ok(());
        },
    };
    let found = match next_reply(replies, at) {
        Some(reply) => reply,
        None => {
            return Err(Call::Find { path: buffer.path.clone() });
        },
    };
    let document = match found.id {
        Some(document) => document,
        None => {
            return Ok(());
        },
    };
    // Buffers that were opened without being shown share the view that was
    // focused then; if none of the restored views reference the buffer,
    // update its selection in whatever view it was initialized with.
    if found.views.len() > 0 && none_shown(&found.views, shown) {
        if next_reply(replies, at).is_none() {
            return Err(Call::SetCursor { document, view: found.views[0], cursor });
        }
    }
    Ok(())
}

fn restore_cursors(
    buffers: &Vec<BufferState>,
    shown: &Vec<(u64, &ViewState)>,
    replies: &Vec<Reply>,
    at: &mut usize,
) -> (r: Result<(), Call>)
    requires
        *old(at) <= replies@.len(),
    ensures
        *final(at) <= replies@.len(),
        match cursors_restored(
            buffer_views(buffers@),
            shown_views(shown@),
            left(replies@, *old(at)),
        ) {
            Step::Need(c) => r matches Err(call) && call@ == c,
            Step::Go(_, rs) => r is Ok && left(replies@, *final(at)) == rs,
        },
{
    let ghost s = buffer_views(buffers@);
    let ghost views = shown_views(shown@);
    let ghost start = left(replies@, *at);
    let mut i: usize = 0;
    assert(s.skip(0) =~= s);
    while i < buffers.len()
        invariant
            i <= buffers@.len(),
            s == buffer_views(buffers@),
            views == shown_views(shown@),
            start == left(replies@, *old(at)),
            *at <= replies@.len(),
            cursors_restored(s, views, start) == cursors_restored(
                s.skip(i as int),
                views,
                left(replies@, *at),
            ),
        decreases buffers@.len() - i,
    {
        assert(s.skip(i as int)[0] == buffers@[i as int]@);
        assert(s.skip(i as int).skip(1) =~= s.skip(i + 1));
        if let Err(call) = restore_cursor(&buffers[i], shown, replies, at) {
            return Err(call);
        }
        i += 1;
    }
    assert(s.skip(i as int) =~= Seq::empty());
    Ok(())
}

/// The views that were restored.
fn restored_views<'a>(placed: &Vec<(Option<u64>, &'a ViewState)>) -> (r: Vec<(u64, &'a ViewState)>)
    ensures
        shown_views(r@) == given(placed_views(placed@)),
{
    let ghost s = placed_views(placed@);
    let mut out: Vec<(u64, &'a ViewState)> = Vec::new();
    let mut i: usize = 0;
    assert(s.take(0) =~= Seq::empty());
    assert(shown_views(out@) =~= given(s.take(0)));
    while i < placed.len()
        invariant
            i <= placed@.len(),
            s == placed_views(placed@),
            shown_views(out@) == given(s.take(i as int)),
        decreases placed@.len() - i,
    {
        let ghost before = out@;
        assert(s.take(i + 1).drop_last() =~= s.take(i as int));
        assert(s.take(i + 1).last() == s[i as int]);
        if let Some(view) = placed[i].0 {
            out.push((view, placed[i].1));
            assert(shown_views(out@) =~= shown_views(before).push((view, placed@[i as int].1@)));
        }
        i += 1;
    }
    assert(s.take(i as int) =~= s);
    out
}

fn refocus(
    placed: &Vec<(Option<u64>, &ViewState)>,
    shown: &Vec<(u64, &ViewState)>,
    focused: usize,
    replies: &Vec<Reply>,
    at: &mut usize,
) -> (r: Result<(), Call>)
    requires
        *old(at) <= replies@.len(),
        shown_views(shown@) == given(placed_views(placed@)),
    ensures
        *final(at) <= replies@.len(),
        match refocused(placed_views(placed@), focused as nat, left(replies@, *old(at))) {
            Step::Need(c) => r matches Err(call) && call@ == c,
            Step::Go(_, rs) => r is Ok && left(replies@, *final(at)) == rs,
        },
{
    assert(shown_views(shown@).len() == shown@.len());
    assert(placed_views(placed@).len() == placed@.len());
    let exact = if focused < placed.len() {
        placed[focused].0
    } else {
        None
    };
    let view = match exact {
        Some(view) => view,
        None => {
            if shown.len() == 0 {
                return Ok(());
            }
            if focused < shown.len() {
                assert(shown_views(shown@)[focused as int] == given(
                    placed_views(placed@),
                )[focused as int]);
                shown[focused].0
            } else {
                shown[shown.len() - 1].0
            }
        },
    };
    if next_reply(replies, at).is_none() {
        return Err(Call::Focus { view });
    }
    Ok(())
}

/// Whether a layout that there may be has no empty container.
pub open spec fn layout_valid(v: SessionView) -> bool {
    v.layout matches Some(l) ==> nothing_empty(l)
}

/// Restores a session into the editor: opens all buffers, rebuilds the
/// split layout and restores selections and scroll positions.
///
/// Given the replies to the calls so far, says which call comes next (`Err`),
/// or that all is done: then the result is `false` when there was nothing to
/// restore, in which case the caller should fall back to opening an empty
/// buffer.
pub fn restore(session: &Session, replies: &Vec<Reply>) -> (r: Result<bool, Call>)
    requires
        layout_valid(session@),
    ensures
        match session_restored(session@, reply_views(replies@)) {
            Step::Need(c) => r matches Err(call) && call@ == c,
            Step::Go(done, _) => r matches Ok(any) && any == done,
        },
{
    assert(buffer_views(session.buffers@).len() == session.buffers@.len());
    if session.buffers.len() == 0 && session.layout.is_none() {
        return Ok(false);
    }
    let mut at: usize = 0;
    assert(left(replies@, 0) =~= reply_views(replies@));
    // Ensure there is a view to open buffers into; it is replaced (and the
    // scratch buffer removed) when the first view of the layout is restored.
    let focus = match next_reply(replies, &mut at) {
        Some(reply) => match reply.id {
            Some(view) => view,
            None => 0,
        },
        None => {
            return Err(Call::NewFile);
        },
    };
    if let Err(call) = open_buffers(&session.buffers, focus, replies, &mut at) {
        return Err(call);
    }
    let placed = match &session.layout {
        Some(layout) => match restore_layout(layout, focus, replies, &mut at) {
            Ok(placed) => placed,
            Err(call) => {
                return Err(call);
            },
        },
        None => Vec::new(),
    };
    assert(session.layout is None ==> placed_views(placed@) =~= Seq::empty());
    let shown = restored_views(&placed);
    if let Err(call) = apply_views(&shown, replies, &mut at) {
        return Err(call);
    }
    if let Err(call) = restore_cursors(&session.buffers, &shown, replies, &mut at) {
        return Err(call);
    }
    if let Err(call) = refocus(&placed, &shown, session.focused_view, replies, &mut at) {
        return Err(call);
    }
    assert(shown_views(shown@).len() == shown@.len());
    Ok(shown.len() > 0)
}

// ── The sidebar ──────────────────────────────────────────────────────────
/// Rebuilds the file explorer sidebar from its persisted state, if its root
/// is still a directory.
pub fn restore_sidebar(
    state: &SidebarState,
    root_is_dir: bool,
    disk: &Listings,
    changes: &Vec<Option<FileChange>>,
) -> (r: Option<FileTree>)
    requires
        state.expanded@.len() + 1 < usize::MAX,
    ensures
        match r {
            Some(tree) => root_is_dir && tree@ == restored(
                opened(state@.root, *disk, changes@),
                state@,
                *disk,
            ) && tree.marked.wf(),
            None => !root_is_dir,
        },
{
    if !root_is_dir {
        return None;
    }
    let mut tree = FileTree::new(state.root.clone(), disk, changes);
    let mut expanded: Vec<PathBuf> = Vec::new();
    let mut i: usize = 0;
    while i < state.expanded.len()
        invariant
            i <= state.expanded@.len(),
            expanded@.len() == i,
            forall|k: int| 0 <= k < i ==> (#[trigger] expanded@[k])@ == state.expanded@[k]@,
        decreases state.expanded@.len() - i,
    {
        expanded.push(state.expanded[i].clone());
        i += 1;
    }
    assert(path_texts(expanded@) =~= path_texts(state.expanded@));
    let selected = match &state.selected {
        Some(p) => Some(p.clone()),
        None => None,
    };
    let position = FileTreeState {
        root: state.root.clone(),
        expanded,
        selected,
        scroll: state.scroll,
    };
    proof {
        lemma_opened_depth(state@.root, *disk, changes@, state.expanded@.len() as int + 1);
    }
    tree.restore_state(&position, disk);
    Some(tree)
}

// ── Laws ─────────────────────────────────────────────────────────────────
/// Whether the documents that some layouts start with can be opened, and the
/// views for them split off: by the replies to these calls.
pub open spec fn all_anchored(
    s: Seq<LayoutView>,
    layout: Layout,
    last: u64,
    rs: Seq<ReplyView>,
) -> bool
    decreases s.len(),
{
    s.len() == 0 || (rs.len() >= 2 && rs[0].id is Some && (rs[1].id matches Some(view)
        && all_anchored(s.skip(1), layout, view, rs.skip(2))))
}

/// Whether all documents of a layout can be opened, and all views split off:
/// by the replies to these calls.
pub open spec fn all_opened(l: LayoutView, focus: u64, rs: Seq<ReplyView>) -> bool
    decreases l, 0int,
{
    match l {
        LayoutView::View(v) => rs.len() >= 2 && rs[0].id is Some,
        LayoutView::Container { layout, children } => all_anchored(
            children.skip(1),
            layout,
            focus,
            rs,
        ) && (anchors(children.skip(1), layout, focus, rs) matches Step::Go(more, rs1)
            && each_opened(children, seq![Some(focus)] + more, rs1)),
    }
}

/// The same for several layouts, each in its view.
pub open spec fn each_opened(
    s: Seq<LayoutView>,
    views: Seq<Option<u64>>,
    rs: Seq<ReplyView>,
) -> bool
    decreases s, 1int,
{
    s.len() == 0 || (views.len() == s.len() && each_opened(s.drop_last(), views.drop_last(), rs)
        && (filled(s.drop_last(), views.drop_last(), rs) matches Step::Go(_, rs1)
        && all_opened(s.last(), views.last()->0, rs1)))
}

/// What the views of a layout show.
pub open spec fn placed_leaves(s: Seq<(Option<u64>, LeafView)>) -> Seq<LeafView> {
    Seq::new(s.len(), |i: int| s[i].1)
}

/// Whether every view of a layout was restored.
pub open spec fn all_placed(s: Seq<(Option<u64>, LeafView)>) -> bool {
    forall|i: int| 0 <= i < s.len() ==> (#[trigger] s[i]).0 is Some
}

proof fn lemma_has_first_path(l: LayoutView)
    requires
        nothing_empty(l),
    ensures
        first_path(l) is Some,
    decreases l,
{
    if let LayoutView::Container { layout, children } = l {
        lemma_has_first_path(children.last());
    }
}

proof fn lemma_all_anchored(s: Seq<LayoutView>, layout: Layout, last: u64, rs: Seq<ReplyView>)
    requires
        none_empty(s),
        all_anchored(s, layout, last, rs),
    ensures
        anchors(s, layout, last, rs) matches Step::Go(views, _) && views.len() == s.len()
            && forall|i: int| 0 <= i < views.len() ==> (#[trigger] views[i]) is Some,
    decreases s.len(),
{
    if s.len() > 0 {
        lemma_none_empty(s, 0);
        lemma_has_first_path(s[0]);
        lemma_none_empty_skip(s);
        let rs1 = rs.skip(1);
        assert(rs1[0] == rs[1]);
        assert(rs1.skip(1) =~= rs.skip(2));
        let view = rs[1].id->0;
        lemma_all_anchored(s.skip(1), layout, view, rs.skip(2));
    }
}

proof fn lemma_none_empty_skip(s: Seq<LayoutView>)
    requires
        none_empty(s),
        s.len() > 0,
    ensures
        none_empty(s.skip(1)),
    decreases s.len(),
{
    if s.len() > 1 {
        assert(s.skip(1).drop_last() =~= s.drop_last().skip(1));
        assert(s.skip(1).last() == s.last());
        lemma_none_empty_skip(s.drop_last());
    }
}

/// Every view of a layout is accounted for, whatever can be opened.
proof fn lemma_rebuilt(l: LayoutView, focus: u64, rs: Seq<ReplyView>)
    requires
        nothing_empty(l),
        rebuilt(l, focus, rs) is Go,
    ensures
        placed_leaves(rebuilt(l, focus, rs)->Go_0) == leaves(l),
    decreases l, 0int,
{
    match l {
        LayoutView::View(v) => {
            assert(placed_leaves(rebuilt(l, focus, rs)->Go_0) =~= seq![v]);
        },
        LayoutView::Container { layout, children } => {
            lemma_anchor_count(children.skip(1), layout, focus, rs);
            let step = anchors(children.skip(1), layout, focus, rs);
            lemma_filled(children, seq![Some(focus)] + step->Go_0, step->Go_1);
        },
    }
}

proof fn lemma_filled(s: Seq<LayoutView>, views: Seq<Option<u64>>, rs: Seq<ReplyView>)
    requires
        none_empty(s),
        views.len() == s.len(),
        filled(s, views, rs) is Go,
    ensures
        placed_leaves(filled(s, views, rs)->Go_0) == leaves_all(s),
    decreases s, 1int,
{
    if s.len() > 0 {
        let (p, v) = (s.drop_last(), views.drop_last());
        lemma_filled(p, v, rs);
        let before = filled(p, v, rs);
        let these = match views.last() {
            Some(view) => {
                lemma_rebuilt(s.last(), view, before->Go_1);
                rebuilt(s.last(), view, before->Go_1)->Go_0
            },
            None => unplaced(leaves(s.last())),
        };
        assert(placed_leaves(these) =~= leaves(s.last()));
        assert(placed_leaves(before->Go_0 + these) =~= placed_leaves(before->Go_0) + placed_leaves(
            these,
        ));
    } else {
        assert(placed_leaves(Seq::empty()) =~= Seq::empty());
    }
}

/// If everything can be opened, every view is restored.
proof fn lemma_rebuilt_whole(l: LayoutView, focus: u64, rs: Seq<ReplyView>)
    requires
        nothing_empty(l),
        all_opened(l, focus, rs),
    ensures
        rebuilt(l, focus, rs) matches Step::Go(placed, _) && all_placed(placed),
    decreases l, 0int,
{
    if let LayoutView::Container { layout, children } = l {
        lemma_none_empty_skip(children);
        lemma_all_anchored(children.skip(1), layout, focus, rs);
        let step = anchors(children.skip(1), layout, focus, rs);
        let views = seq![Some(focus)] + step->Go_0;
        assert forall|i: int| 0 <= i < views.len() implies (#[trigger] views[i]) is Some by {
            if i > 0 {
                assert(views[i] == step->Go_0[i - 1]);
            }
        }
        lemma_filled_whole(children, views, step->Go_1);
    }
}

proof fn lemma_filled_whole(s: Seq<LayoutView>, views: Seq<Option<u64>>, rs: Seq<ReplyView>)
    requires
        none_empty(s),
        views.len() == s.len(),
        forall|i: int| 0 <= i < views.len() ==> (#[trigger] views[i]) is Some,
        each_opened(s, views, rs),
    ensures
        filled(s, views, rs) matches Step::Go(placed, _) && all_placed(placed),
    decreases s, 1int,
{
    if s.len() > 0 {
        let (p, v) = (s.drop_last(), views.drop_last());
        assert forall|i: int| 0 <= i < v.len() implies (#[trigger] v[i]) is Some by {
            assert(v[i] == views[i]);
        }
        lemma_filled_whole(p, v, rs);
        let before = filled(p, v, rs);
        assert(views[views.len() - 1] is Some);
        lemma_rebuilt_whole(s.last(), views.last()->0, before->Go_1);
    }
}

/// Which views are restored are those of the layout, each with what it
/// showed, and all of them if every document can be opened.
proof fn lemma_given(s: Seq<(Option<u64>, LeafView)>)
    ensures
        given(s).len() <= s.len(),
        given(s).len() == 0 <==> forall|i: int| 0 <= i < s.len() ==> (#[trigger] s[i]).0 is None,
        all_placed(s) ==> given(s).len() == s.len() && forall|i: int|
            0 <= i < s.len() ==> (#[trigger] given(s)[i]) == (s[i].0->0, s[i].1),
    decreases s.len(),
{
    if s.len() > 0 {
        let t = s.drop_last();
        lemma_given(t);
        assert forall|i: int| 0 <= i < t.len() implies #[trigger] t[i] == s[i] by {}
        if given(s).len() == 0 {
            assert forall|i: int| 0 <= i < s.len() implies (#[trigger] s[i]).0 is None by {
                if i < t.len() {
                    assert(t[i].0 is None);
                }
            }
        } else if given(t).len() > 0 {
            let i = choose|i: int| 0 <= i < t.len() && (#[trigger] t[i]).0 is Some;
            assert(s[i].0 is Some);
        } else {
            assert(s[s.len() - 1].0 is Some);
        }
        if all_placed(s) {
            assert forall|i: int| 0 <= i < t.len() implies (#[trigger] t[i]).0 is Some by {
                assert(s[i].0 is Some);
            }
            assert(s[s.len() - 1].0 is Some);
            assert forall|i: int| 0 <= i < s.len() implies (#[trigger] given(s)[i]) == (
                s[i].0->0,
                s[i].1,
            ) by {
                if i < t.len() {
                    assert(given(s)[i] == given(t)[i]);
                }
            }
        }
    }
}

/// Whatever documents can be opened, every view of the layout is accounted
/// for, in its order; and if the focused one is restored, it is the view that
/// is focused. If every document can be opened, every view is restored.
pub proof fn law_layout_restored(l: LayoutView, focus: u64, focused: nat, rs: Seq<ReplyView>)
    requires
        nothing_empty(l),
    ensures
        all_opened(l, focus, rs) ==> (rebuilt(l, focus, rs) matches Step::Go(placed, _)
            && all_placed(placed)),
        rebuilt(l, focus, rs) matches Step::Go(placed, _) ==> {
            &&& placed_leaves(placed) == leaves(l)
            &&& placed.len() == leaves(l).len()
            &&& focused < placed.len() && placed[focused as int].0 is Some ==> focus_target(
                placed,
                focused,
            ) == placed[focused as int].0 && placed[focused as int].1 == leaves(
                l,
            )[focused as int]
            &&& all_placed(placed) ==> given(placed).len() == placed.len() && forall|i: int|
                0 <= i < placed.len() ==> (#[trigger] given(placed)[i]) == (
                    placed[i].0->0,
                    leaves(l)[i],
                )
        },
{
    if all_opened(l, focus, rs) {
        lemma_rebuilt_whole(l, focus, rs);
    }
    if let Step::Go(placed, _) = rebuilt(l, focus, rs) {
        lemma_rebuilt(l, focus, rs);
        lemma_given(placed);
        assert(placed_leaves(placed).len() == placed.len());
        assert forall|i: int| 0 <= i < placed.len() implies #[trigger] leaves(l)[i]
            == placed[i].1 by {
            assert(placed_leaves(placed)[i] == placed[i].1);
        }
    }
}

/// What was taken from the editor comes back: a layout that is saved, loaded
/// and rebuilt accounts for the views whose file is still there, in their
/// order, with their selections and scroll positions. Whatever views are gone
/// by then, and whatever documents cannot be opened, the view that was focused
/// is focused, if it is restored itself.
pub proof fn law_layout_comes_back(
    node: SplitView,
    views: Seq<OpenView>,
    i: int,
    disk: Disk,
    focus: u64,
    rs: Seq<ReplyView>,
)
    requires
        view_count(node) == views.len(),
        0 <= i < views.len(),
        views[i].focused,
        views[i].path matches Some(t) && disk.file_at(t),
        forall|j: int| 0 <= j < views.len() && j != i ==> !(#[trigger] views[j]).focused,
    ensures
        captured(node, views, Progress { next: 0, leaf: 0, focus: 0 }) matches (Some(l), end) && (
        pruned(l, disk) matches Some(p) && {
            let f = focus_pruned(l, end.focus, disk);
            &&& nothing_empty(p)
            &&& all_opened(p, focus, rs) ==> (rebuilt(p, focus, rs) matches Step::Go(placed, _)
                && all_placed(placed))
            &&& rebuilt(p, focus, rs) matches Step::Go(placed, _) ==> {
                &&& placed_leaves(placed) == persisted(views).filter(
                    |v: LeafView| disk.file_at(v.path),
                )
                &&& f < placed.len()
                &&& placed[f as int].1 == leaf_of(views[i])
                &&& placed[f as int].0 is Some ==> focus_target(placed, f) == placed[f as int].0
            }
        }),
{
    let (l, end) = captured(node, views, Progress { next: 0, leaf: 0, focus: 0 });
    law_snapshot_layout(node, views, i);
    law_pruned(l->0, disk);
    law_focus_kept(l->0, end.focus, end.focus as int, disk);
    let p = pruned(l->0, disk)->0;
    law_layout_restored(p, focus, focus_pruned(l->0, end.focus, disk), rs);
    if let Step::Go(placed, _) = rebuilt(p, focus, rs) {
        let f = focus_pruned(l->0, end.focus, disk) as int;
        assert(placed_leaves(placed)[f] == placed[f].1);
    }
}

// What a step gives rests on the replies that it takes up: the lemmas below say
// so for replies that go on, and are cut off, behind these.
proof fn lemma_anchors_take(
    s: Seq<LayoutView>,
    layout: Layout,
    last: u64,
    rs: Seq<ReplyView>,
    m: int,
)
    requires
        anchors(s, layout, last, rs) is Go,
        rs.len() - anchors(s, layout, last, rs)->Go_1.len() <= m <= rs.len(),
    ensures
        ({
            let used = rs.len() - anchors(s, layout, last, rs)->Go_1.len();
            &&& 0 <= used
            &&& anchors(s, layout, last, rs)->Go_1 == rs.skip(used)
            &&& anchors(s, layout, last, rs.take(m)) == Step::Go(
                anchors(s, layout, last, rs)->Go_0,
                rs.take(m).skip(used),
            )
        }),
    decreases s.len(),
{
    if s.len() == 0 {
        assert(rs.skip(0) =~= rs);
        assert(rs.take(m).skip(0) =~= rs.take(m));
    } else if first_path(s[0]) is None {
        lemma_anchors_take(s.skip(1), layout, last, rs, m);
    } else {
        let rs1 = rs.skip(1);
        let used = rs.len() - anchors(s, layout, last, rs)->Go_1.len();
        match rs[0].id {
            None => {
                lemma_anchors_take(s.skip(1), layout, last, rs1, m - 1);
                lemma_cut(rs, m, used - 1);
            },
            Some(document) => {
                let rs2 = rs1.skip(1);
                let next = match rs1[0].id {
                    Some(view) => view,
                    None => last,
                };
                lemma_anchors_take(s.skip(1), layout, next, rs2, m - 2);
                lemma_cut(rs1, m - 1, used - 2);
                lemma_cut(rs, m, used - 1);
            },
        }
    }
}

/// The first reply, and those behind it, of replies that are cut off.
proof fn lemma_cut(rs: Seq<ReplyView>, m: int, used: int)
    requires
        rs.len() > 0,
        0 <= used <= m - 1,
        m <= rs.len(),
    ensures
        rs.take(m).len() > 0,
        rs.take(m)[0] == rs[0],
        rs.take(m).skip(1) == rs.skip(1).take(m - 1),
        rs.skip(1).skip(used) == rs.skip(used + 1),
        rs.skip(1).take(m - 1).skip(used) == rs.take(m).skip(used + 1),
{
    assert(rs.take(m).skip(1) =~= rs.skip(1).take(m - 1));
    assert(rs.skip(1).skip(used) =~= rs.skip(used + 1));
    assert(rs.skip(1).take(m - 1).skip(used) =~= rs.take(m).skip(used + 1));
}

/// What is taken up in two parts.
proof fn lemma_two_cuts(rs: Seq<ReplyView>, m: int, a: int, b: int)
    requires
        0 <= a,
        0 <= b,
        a + b <= m <= rs.len(),
    ensures
        rs.skip(a).skip(b) == rs.skip(a + b),
        rs.take(m).skip(a) == rs.skip(a).take(m - a),
        rs.skip(a).take(m - a).skip(b) == rs.take(m).skip(a + b),
{
    assert(rs.skip(a).skip(b) =~= rs.skip(a + b));
    assert(rs.take(m).skip(a) =~= rs.skip(a).take(m - a));
    assert(rs.skip(a).take(m - a).skip(b) =~= rs.take(m).skip(a + b));
}

proof fn lemma_rebuilt_take(l: LayoutView, focus: u64, rs: Seq<ReplyView>, m: int)
    requires
        rebuilt(l, focus, rs) is Go,
        rs.len() - rebuilt(l, focus, rs)->Go_1.len() <= m <= rs.len(),
    ensures
        ({
            let used = rs.len() - rebuilt(l, focus, rs)->Go_1.len();
            &&& 0 <= used
            &&& rebuilt(l, focus, rs)->Go_1 == rs.skip(used)
            &&& rebuilt(l, focus, rs.take(m)) == Step::Go(
                rebuilt(l, focus, rs)->Go_0,
                rs.take(m).skip(used),
            )
        }),
    decreases l, 0int,
{
    let used = rs.len() - rebuilt(l, focus, rs)->Go_1.len();
    match l {
        LayoutView::View(v) => {
            lemma_cut(rs, m, used - 1);
            if rs[0].id is Some {
                lemma_cut(rs.skip(1), m - 1, used - 2);
            } else {
                assert(rs.take(m).skip(1) =~= rs.take(m).skip(used));
            }
        },
        LayoutView::Container { layout, children } => {
            let first = anchors(children.skip(1), layout, focus, rs);
            let rs1 = first->Go_1;
            let a = rs.len() - rs1.len();
            let views = seq![Some(focus)] + first->Go_0;
            lemma_filled_count(children, views, rs1);
            lemma_anchors_take(children.skip(1), layout, focus, rs, m);
            lemma_filled_take(children, views, rs1, m - a);
            lemma_two_cuts(rs, m, a, used - a);
        },
    }
}

/// Filling views takes replies away.
proof fn lemma_filled_count(s: Seq<LayoutView>, views: Seq<Option<u64>>, rs: Seq<ReplyView>)
    requires
        filled(s, views, rs) is Go,
    ensures
        filled(s, views, rs)->Go_1.len() <= rs.len(),
    decreases s, 1int,
{
    if s.len() > 0 && views.len() == s.len() {
        lemma_filled_count(s.drop_last(), views.drop_last(), rs);
        let rs1 = filled(s.drop_last(), views.drop_last(), rs)->Go_1;
        if let Some(view) = views.last() {
            lemma_rebuilt_count(s.last(), view, rs1);
        }
    }
}

/// Rebuilding a layout takes replies away.
proof fn lemma_rebuilt_count(l: LayoutView, focus: u64, rs: Seq<ReplyView>)
    requires
        rebuilt(l, focus, rs) is Go,
    ensures
        rebuilt(l, focus, rs)->Go_1.len() <= rs.len(),
    decreases l, 0int,
{
    if let LayoutView::Container { layout, children } = l {
        let first = anchors(children.skip(1), layout, focus, rs);
        lemma_anchors_take(children.skip(1), layout, focus, rs, rs.len() as int);
        lemma_filled_count(children, seq![Some(focus)] + first->Go_0, first->Go_1);
    }
}

proof fn lemma_filled_take(
    s: Seq<LayoutView>,
    views: Seq<Option<u64>>,
    rs: Seq<ReplyView>,
    m: int,
)
    requires
        filled(s, views, rs) is Go,
        rs.len() - filled(s, views, rs)->Go_1.len() <= m <= rs.len(),
    ensures
        ({
            let used = rs.len() - filled(s, views, rs)->Go_1.len();
            &&& 0 <= used
            &&& filled(s, views, rs)->Go_1 == rs.skip(used)
            &&& filled(s, views, rs.take(m)) == Step::Go(
                filled(s, views, rs)->Go_0,
                rs.take(m).skip(used),
            )
        }),
    decreases s, 1int,
{
    let used = rs.len() - filled(s, views, rs)->Go_1.len();
    if s.len() == 0 || views.len() != s.len() {
        assert(rs.skip(0) =~= rs);
        assert(rs.take(m).skip(0) =~= rs.take(m));
    } else {
        let (p, v) = (s.drop_last(), views.drop_last());
        let rs1 = filled(p, v, rs)->Go_1;
        let a = rs.len() - rs1.len();
        if let Some(view) = views.last() {
            lemma_rebuilt_count(s.last(), view, rs1);
            lemma_filled_take(p, v, rs, m);
            lemma_rebuilt_take(s.last(), view, rs1, m - a);
            lemma_two_cuts(rs, m, a, used - a);
        } else {
            lemma_filled_take(p, v, rs, m);
        }
    }
}

pub proof fn lemma_buffers_opened(s: Seq<BufferView>, focus: u64, rs: Seq<ReplyView>)
    ensures
        s.len() <= rs.len() ==> buffers_opened(s, focus, rs) == Step::Go((), rs.skip(s.len() as int)),
        rs.len() < s.len() ==> buffers_opened(s, focus, rs) == Step::<()>::Need(
            CallView::Open { view: focus, path: s[rs.len() as int].path },
        ),
    decreases s.len(),
{
    if s.len() == 0 {
        assert(rs.skip(0) =~= rs);
    } else if rs.len() > 0 {
        lemma_buffers_opened(s.skip(1), focus, rs.skip(1));
        if s.len() <= rs.len() {
            assert(rs.skip(1).skip(s.len() - 1) =~= rs.skip(s.len() as int));
        }
    }
}

proof fn lemma_views_applied(s: Seq<(u64, LeafView)>, rs: Seq<ReplyView>)
    ensures
        s.len() <= rs.len() ==> views_applied(s, rs) == Step::Go((), rs.skip(s.len() as int)),
        rs.len() < s.len() ==> views_applied(s, rs) == Step::<()>::Need(
            CallView::Apply {
                view: s[rs.len() as int].0,
                update: update_of(s[rs.len() as int].1),
            },
        ),
    decreases s.len(),
{
    if s.len() == 0 {
        assert(rs.skip(0) =~= rs);
    } else if rs.len() > 0 {
        lemma_views_applied(s.skip(1), rs.skip(1));
        if s.len() <= rs.len() {
            assert(rs.skip(1).skip(s.len() - 1) =~= rs.skip(s.len() as int));
        }
    }
}

proof fn lemma_cursors_take(
    s: Seq<BufferView>,
    shown: Seq<(u64, LeafView)>,
    rs: Seq<ReplyView>,
    m: int,
)
    requires
        cursors_restored(s, shown, rs) is Go,
        rs.len() - cursors_restored(s, shown, rs)->Go_1.len() <= m <= rs.len(),
    ensures
        ({
            let used = rs.len() - cursors_restored(s, shown, rs)->Go_1.len();
            &&& 0 <= used
            &&& cursors_restored(s, shown, rs)->Go_1 == rs.skip(used)
            &&& cursors_restored(s, shown, rs.take(m)) == Step::Go((), rs.take(m).skip(used))
        }),
    decreases s.len(),
{
    let used = rs.len() - cursors_restored(s, shown, rs)->Go_1.len();
    if s.len() == 0 {
        assert(rs.skip(0) =~= rs);
        assert(rs.take(m).skip(0) =~= rs.take(m));
    } else {
        let rs1 = cursor_restored(s[0], shown, rs)->Go_1;
        let a = rs.len() - rs1.len();
        if a == 0 {
            assert(rs1 == rs);
            lemma_cursors_take(s.skip(1), shown, rs, m);
        } else if a == 1 {
            assert(rs1 == rs.skip(1));
            lemma_cursors_take(s.skip(1), shown, rs1, m - 1);
            lemma_cut(rs, m, used - 1);
        } else {
            assert(rs1 == rs.skip(1).skip(1));
            lemma_cursors_take(s.skip(1), shown, rs1, m - 2);
            lemma_cut(rs.skip(1), m - 1, used - 2);
            lemma_cut(rs, m, used - 1);
        }
    }
}

/// The replies to what comes before the layout: a view, and the buffers.
pub open spec fn before_layout(v: SessionView) -> int {
    1 + v.buffers.len() as int
}

/// The view that a session is restored in at first.
pub open spec fn first_view(rs: Seq<ReplyView>) -> u64 {
    match rs[0].id {
        Some(view) => view,
        None => 0,
    }
}

/// What is done once the layout is rebuilt.
spec fn after_layout(
    v: SessionView,
    placed: Seq<(Option<u64>, LeafView)>,
    rs: Seq<ReplyView>,
) -> Step<bool> {
    match views_applied(given(placed), rs) {
        Step::Need(c) => Step::Need(c),
        Step::Go(_, rs1) => match cursors_restored(v.buffers, given(placed), rs1) {
            Step::Need(c) => Step::Need(c),
            Step::Go(_, rs2) => match refocused(placed, v.focused_view, rs2) {
                Step::Need(c) => Step::Need(c),
                Step::Go(_, rs3) => Step::Go(given(placed).len() > 0, rs3),
            },
        },
    }
}

/// With fewer replies than buffers, the next buffer is opened.
proof fn lemma_buffer_next(v: SessionView, rs: Seq<ReplyView>, k: int)
    requires
        0 <= k < v.buffers.len(),
        rs.len() > k,
    ensures
        session_restored(v, rs.take(1 + k)) == Step::<bool>::Need(
            CallView::Open { view: first_view(rs), path: v.buffers[k].path },
        ),
{
    let cut = rs.take(1 + k);
    assert(cut[0] == rs[0]);
    lemma_buffers_opened(v.buffers, first_view(rs), cut.skip(1));
}

/// With replies to all that comes before, the layout is rebuilt from the rest.
proof fn lemma_up_to_layout(v: SessionView, rs: Seq<ReplyView>)
    requires
        v.layout is Some,
        session_restored(v, rs) is Go,
    ensures
        before_layout(v) <= rs.len(),
        rebuilt(v.layout->0, first_view(rs), rs.skip(before_layout(v))) matches Step::Go(
            placed,
            rest,
        ) && rest.len() <= rs.len() - before_layout(v) && session_restored(v, rs) == after_layout(
            v,
            placed,
            rest,
        ),
{
    lemma_buffers_opened(v.buffers, first_view(rs), rs.skip(1));
    assert(rs.skip(1).skip(v.buffers.len() as int) =~= rs.skip(before_layout(v)));
    lemma_rebuilt_count(v.layout->0, first_view(rs), rs.skip(before_layout(v)));
}

/// Of the replies behind the layout, some may be missing.
proof fn lemma_from_layout(v: SessionView, rs: Seq<ReplyView>, m: int)
    requires
        v.layout is Some,
        session_restored(v, rs) is Go,
        rs.len() - rebuilt(
            v.layout->0,
            first_view(rs),
            rs.skip(before_layout(v)),
        )->Go_1.len() <= m <= rs.len(),
    ensures
        rebuilt(v.layout->0, first_view(rs), rs.skip(before_layout(v))) matches Step::Go(
            placed,
            rest,
        ) && session_restored(v, rs.take(m)) == after_layout(
            v,
            placed,
            rest.take(m - (rs.len() - rest.len())),
        ),
{
    let l = v.layout->0;
    let focus = first_view(rs);
    let b = before_layout(v);
    lemma_up_to_layout(v, rs);
    let rest = rebuilt(l, focus, rs.skip(b))->Go_1;
    let at = rs.len() - rest.len();
    let cut = rs.take(m);
    assert(cut[0] == rs[0]);
    lemma_rebuilt_take(l, focus, rs.skip(b), m - b);
    lemma_two_cuts(rs, m, b, at - b);
    lemma_buffers_opened(v.buffers, focus, cut.skip(1));
    assert(cut.skip(1).skip(v.buffers.len() as int) =~= cut.skip(b));
    assert(cut.skip(at) =~= rest.take(m - at));
}

/// What is done with some of the replies behind the layout.
proof fn lemma_after_layout(
    v: SessionView,
    placed: Seq<(Option<u64>, LeafView)>,
    rs: Seq<ReplyView>,
) -> (n: int)
    requires
        after_layout(v, placed, rs) is Go,
    ensures
        given(placed).len() <= n <= rs.len(),
        after_layout(v, placed, rs)->Go_0 == (given(placed).len() > 0),
        forall|k: int|
            0 <= k < given(placed).len() ==> after_layout(v, placed, #[trigger] rs.take(k))
                == Step::<bool>::Need(
                CallView::Apply { view: given(placed)[k].0, update: update_of(given(placed)[k].1) },
            ),
        focus_target(placed, v.focused_view) matches Some(view) ==> after_layout(
            v,
            placed,
            rs.take(n),
        ) == Step::<bool>::Need(CallView::Focus { view }),
{
    let shown = given(placed);
    let c = shown.len() as int;
    lemma_views_applied(shown, rs);
    assert forall|k: int| 0 <= k < c implies after_layout(v, placed, #[trigger] rs.take(k))
        == Step::<bool>::Need(
        CallView::Apply { view: shown[k].0, update: update_of(shown[k].1) },
    ) by {
        lemma_views_applied(shown, rs.take(k));
    }
    let rs1 = rs.skip(c);
    lemma_cursors_take(v.buffers, shown, rs1, rs1.len() as int);
    let gone = rs1.len() - cursors_restored(v.buffers, shown, rs1)->Go_1.len();
    let n = c + gone;
    lemma_views_applied(shown, rs.take(n));
    lemma_cursors_take(v.buffers, shown, rs1, gone);
    assert(rs.take(n).skip(c) =~= rs1.take(gone));
    assert(rs1.take(gone).skip(gone) =~= Seq::empty());
    n
}

/// A session is restored as a whole: every buffer is opened, every view of the
/// layout that can be restored is given back its selections and its scroll
/// position, and a view is focused, in this order. That is the one in which
/// the focused view of the layout was restored, if it was. If every document
/// can be opened, every view is restored.
pub proof fn law_session_restored(v: SessionView, rs: Seq<ReplyView>)
    requires
        v.layout matches Some(l) && nothing_empty(l),
        session_restored(v, rs) is Go,
    ensures
        forall|k: int|
            0 <= k < v.buffers.len() ==> session_restored(v, #[trigger] rs.take(1 + k))
                == Step::<bool>::Need(
                CallView::Open { view: first_view(rs), path: v.buffers[k].path },
            ),
        layout_rebuilt(v.layout, first_view(rs), rs.skip(before_layout(v))) matches Step::Go(
            placed,
            rest,
        ) && {
            let at = rs.len() - rest.len();
            let f = v.focused_view as int;
            &&& placed_leaves(placed) == leaves(v.layout->0)
            &&& all_opened(v.layout->0, first_view(rs), rs.skip(before_layout(v))) ==> all_placed(
                placed,
            )
            &&& session_restored(v, rs)->Go_0 == (exists|k: int|
                0 <= k < placed.len() && (#[trigger] placed[k]).0 is Some)
            &&& forall|k: int|
                0 <= k < given(placed).len() ==> session_restored(v, #[trigger] rs.take(at + k))
                    == Step::<bool>::Need(
                    CallView::Apply { view: given(placed)[k].0, update: update_of(given(placed)[k].1) },
                )
            &&& focus_target(placed, v.focused_view) matches Some(view) ==> exists|n: int|
                0 <= n <= rs.len() && session_restored(v, #[trigger] rs.take(n)) == Step::<
                    bool,
                >::Need(CallView::Focus { view })
            &&& 0 <= f < placed.len() && placed[f].0 is Some ==> focus_target(
                placed,
                v.focused_view,
            ) == placed[f].0
        },
{
    let l = v.layout->0;
    let focus = first_view(rs);
    let rs2 = rs.skip(before_layout(v));
    lemma_up_to_layout(v, rs);
    law_layout_restored(l, focus, v.focused_view, rs2);
    let placed = rebuilt(l, focus, rs2)->Go_0;
    let rest = rebuilt(l, focus, rs2)->Go_1;
    let at = rs.len() - rest.len();
    lemma_given(placed);
    let n = lemma_after_layout(v, placed, rest);
    assert forall|k: int| 0 <= k < v.buffers.len() implies session_restored(
        v,
        #[trigger] rs.take(1 + k),
    ) == Step::<bool>::Need(CallView::Open { view: focus, path: v.buffers[k].path }) by {
        lemma_buffer_next(v, rs, k);
    }
    assert forall|k: int| 0 <= k < given(placed).len() implies session_restored(
        v,
        #[trigger] rs.take(at + k),
    ) == Step::<bool>::Need(
        CallView::Apply { view: given(placed)[k].0, update: update_of(given(placed)[k].1) },
    ) by {
        lemma_from_layout(v, rs, at + k);
        assert(after_layout(v, placed, rest.take(k)) is Need);
    }
    if let Some(view) = focus_target(placed, v.focused_view) {
        lemma_from_layout(v, rs, at + n);
        assert(session_restored(v, rs.take(at + n)) == Step::<bool>::Need(
            CallView::Focus { view },
        ));
    }
}

/// There are replies to all calls that give views back what was saved of them.
pub proof fn lemma_replies_used(v: SessionView, rs: Seq<ReplyView>)
    requires
        v.layout is Some,
        session_restored(v, rs) is Go,
    ensures
        layout_rebuilt(v.layout, first_view(rs), rs.skip(before_layout(v))) matches Step::Go(
            placed,
            rest,
        ) && given(placed).len() <= rest.len() <= rs.len(),
{
    lemma_up_to_layout(v, rs);
    let step = rebuilt(v.layout->0, first_view(rs), rs.skip(before_layout(v)));
    lemma_views_applied(given(step->Go_0), step->Go_1);
}

/// What is done with the replies behind the layout and the restored views.
pub proof fn lemma_tail_restored(v: SessionView, rs: Seq<ReplyView>, m: int)
    requires
        v.layout is Some,
        session_restored(v, rs) is Go,
        layout_rebuilt(v.layout, first_view(rs), rs.skip(before_layout(v))) matches Step::Go(
            placed,
            rest,
        ) ==> rs.len() - rest.len() + given(placed).len() <= m <= rs.len(),
    ensures
        layout_rebuilt(v.layout, first_view(rs), rs.skip(before_layout(v))) matches Step::Go(
            placed,
            rest,
        ) && {
            let shown = given(placed);
            let left = rest.take(m - (rs.len() - rest.len())).skip(shown.len() as int);
            session_restored(v, rs.take(m)) == (match cursors_restored(v.buffers, shown, left) {
                Step::Need(c) => Step::Need(c),
                Step::Go(_, end) => match refocused(placed, v.focused_view, end) {
                    Step::Need(c) => Step::Need(c),
                    Step::Go(_, last) => Step::Go(shown.len() > 0, last),
                },
            })
        },
{
    lemma_up_to_layout(v, rs);
    lemma_from_layout(v, rs, m);
    let step = rebuilt(v.layout->0, first_view(rs), rs.skip(before_layout(v)));
    let (placed, rest) = (step->Go_0, step->Go_1);
    lemma_views_applied(given(placed), rest.take(m - (rs.len() - rest.len())));
}

/// A session with nothing in it asks for no call.
pub proof fn law_nothing_to_restore(v: SessionView, rs: Seq<ReplyView>)
    requires
        v.buffers.len() == 0,
        v.layout is None,
    ensures
        session_restored(v, rs) == Step::<bool>::Go(false, rs),
{
}

} // verus!

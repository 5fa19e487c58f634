//! Split layouts: taking them from the editor, and dropping what is gone.
use crate::args::Layout;
use crate::disk::Disk;
use crate::file_tree::{state_of, FileTree, StateView};
use crate::path::PathBuf;
use crate::session::{
    buffer_views, lemma_shapes, opt_layout, shapes, BufferState, BufferView, LayoutState,
    LayoutView, LeafView, Pos, RangeState, SESSION_VERSION, Session, SessionManager, SessionView,
    SidebarState, ViewState,
};
use vstd::prelude::*;

verus! {

// ── Leaves ───────────────────────────────────────────────────────────────
/// The views of a layout, in depth-first pre-order.
pub open spec fn leaves(l: LayoutView) -> Seq<LeafView>
    decreases l,
{
    match l {
        LayoutView::View(v) => seq![v],
        LayoutView::Container { layout, children } => leaves_all(children),
    }
}

/// The views of several layouts, one after the other.
pub open spec fn leaves_all(s: Seq<LayoutView>) -> Seq<LeafView>
    decreases s,
{
    if s.len() == 0 {
        Seq::empty()
    } else {
        leaves_all(s.drop_last()) + leaves(s.last())
    }
}

/// The views of a layout, if there is one.
pub open spec fn opt_leaves(l: Option<LayoutView>) -> Seq<LeafView> {
    match l {
        Some(l) => leaves(l),
        None => Seq::empty(),
    }
}

/// Whether every container of a layout holds something.
pub open spec fn nothing_empty(l: LayoutView) -> bool
    decreases l,
{
    match l {
        LayoutView::View(_) => true,
        LayoutView::Container { layout, children } => children.len() > 0 && none_empty(children),
    }
}

/// Whether every container of several layouts holds something.
pub open spec fn none_empty(s: Seq<LayoutView>) -> bool
    decreases s,
{
    s.len() > 0 ==> none_empty(s.drop_last()) && nothing_empty(s.last())
}

// ── Dropping views ───────────────────────────────────────────────────────
/// `l` without the views whose file is gone, and without containers that hold
/// nothing any more.
pub open spec fn pruned(l: LayoutView, disk: Disk) -> Option<LayoutView>
    decreases l,
{
    match l {
        LayoutView::View(v) => if disk.file_at(v.path) {
            Some(l)
        } else {
            None
        },
        LayoutView::Container { layout, children } => {
            let left = pruned_all(children, disk);
            if left.len() == 0 {
                None
            } else {
                Some(LayoutView::Container { layout, children: left })
            }
        },
    }
}

/// What is left of several layouts.
pub open spec fn pruned_all(s: Seq<LayoutView>, disk: Disk) -> Seq<LayoutView>
    decreases s,
{
    if s.len() == 0 {
        Seq::empty()
    } else {
        match pruned(s.last(), disk) {
            Some(l) => pruned_all(s.drop_last(), disk).push(l),
            None => pruned_all(s.drop_last(), disk),
        }
    }
}

/// Drops the views whose file is gone, and containers that hold nothing any
/// more. Hands over what is left, if anything is.
pub fn prune_layout(node: LayoutState, disk: &Disk) -> (r: Option<LayoutState>)
    ensures
        opt_layout(r) == pruned(node@, *disk),
    decreases node,
{
    let ghost whole = node;
    match node {
        LayoutState::View(view) => {
            if disk.is_file(&view.path) {
                Some(LayoutState::View(view))
            } else {
                None
            }
        },
        LayoutState::Container { layout, children } => {
            let ghost s = children@;
            let mut rest = children;
            let mut left: Vec<LayoutState> = Vec::new();
            let ghost mut i: int = 0;
            assert(s.skip(0) =~= s);
            assert(shapes(left@) =~= pruned_all(shapes(s.take(0)), *disk));
            while rest.len() > 0
                invariant
                    whole == node,
                    whole is Container,
                    whole->children@ == s,
                    0 <= i <= s.len(),
                    rest@ == s.skip(i),
                    shapes(left@) == pruned_all(shapes(s.take(i)), *disk),
                decreases rest@.len(),
            {
                let ghost before = left@;
                let child = rest.remove(0);
                assert(child == s[i]);
                assert(rest@ =~= s.skip(i + 1));
                assert(s.take(i + 1).drop_last() =~= s.take(i));
                assert(s.take(i + 1).last() == child);
                assert(shapes(s.take(i + 1)).drop_last() =~= shapes(s.take(i)));
                assert(decreases_to!(whole => whole->children));
                assert(decreases_to!(whole->children => whole->children@));
                assert(decreases_to!(whole->children@ => whole->children@[i]));
                if let Some(l) = prune_layout(child, disk) {
                    left.push(l);
                    assert(left@.drop_last() =~= before);
                }
                proof {
                    i = i + 1;
                }
            }
            assert(s.take(i) =~= s);
            proof {
                lemma_shapes(left@);
            }
            if left.len() == 0 {
                None
            } else {
                Some(LayoutState::Container { layout, children: left })
            }
        },
    }
}

/// The index of the focused view among the views of `l` that are left, for
/// the one that had the index `focused`: the number of those before it. Where
/// it is gone itself, this is the index of the next one that is left. An index
/// that no view has stays.
pub open spec fn focus_pruned(l: LayoutView, focused: nat, disk: Disk) -> nat {
    if focused < leaves(l).len() {
        leaves(l).take(focused as int).filter(|v: LeafView| disk.file_at(v.path)).len()
    } else {
        focused
    }
}

/// How far the views before the focused one have been passed.
#[derive(Debug, Clone, Copy)]
struct Passed {
    /// The number of views that are still before the focused one.
    ahead: usize,
    /// The number of views passed whose file is there.
    kept: usize,
    /// Whether the focused view has been reached.
    reached: bool,
}

/// One more view passed.
spec fn passed_one(p: Passed, v: LeafView, disk: Disk) -> Passed {
    if p.reached {
        p
    } else if p.ahead == 0 {
        Passed { reached: true, ..p }
    } else {
        Passed {
            ahead: (p.ahead - 1) as usize,
            kept: (p.kept + if disk.file_at(v.path) {
                1int
            } else {
                0
            }) as usize,
            ..p
        }
    }
}

/// Some more views passed.
spec fn passed(p: Passed, s: Seq<LeafView>, disk: Disk) -> Passed
    decreases s.len(),
{
    if s.len() == 0 {
        p
    } else {
        passed_one(passed(p, s.drop_last(), disk), s.last(), disk)
    }
}

proof fn lemma_passed_add(p: Passed, a: Seq<LeafView>, b: Seq<LeafView>, disk: Disk)
    ensures
        passed(p, a + b, disk) == passed(passed(p, a, disk), b, disk),
    decreases b.len(),
{
    if b.len() == 0 {
        assert(a + b =~= a);
    } else {
        assert((a + b).drop_last() =~= a + b.drop_last());
        lemma_passed_add(p, a, b.drop_last(), disk);
    }
}

/// What passing views from the start on comes to.
proof fn lemma_passed(focused: usize, s: Seq<LeafView>, disk: Disk)
    ensures
        ({
            let p = passed(Passed { ahead: focused, kept: 0, reached: false }, s, disk);
            let n = if focused < s.len() {
                focused as int
            } else {
                s.len() as int
            };
            &&& p.reached == (focused < s.len())
            &&& p.ahead == focused - n
            &&& p.kept == s.take(n).filter(|v: LeafView| disk.file_at(v.path)).len()
            &&& p.kept <= n
        }),
    decreases s.len(),
{
    let keep = |v: LeafView| disk.file_at(v.path);
    reveal(Seq::filter);
    if s.len() == 0 {
        assert(s.take(0) =~= Seq::empty());
    } else {
        let t = s.drop_last();
        lemma_passed(focused, t, disk);
        if focused < t.len() {
            assert(s.take(focused as int) =~= t.take(focused as int));
        } else if focused == t.len() {
            assert(s.take(focused as int) =~= t.take(t.len() as int));
        } else {
            assert(s.take(s.len() as int) =~= s);
            assert(t.take(t.len() as int) =~= t);
        }
    }
}

/// Passes the views of a layout.
fn pass_views(node: &LayoutState, at: &mut Passed, disk: &Disk)
    requires
        old(at).kept + old(at).ahead <= usize::MAX,
    ensures
        *final(at) == passed(*old(at), leaves(node@), *disk),
        final(at).kept + final(at).ahead <= usize::MAX,
    decreases *node,
{
    match node {
        LayoutState::View(view) => {
            assert(seq![view@].drop_last() =~= Seq::empty());
            assert(passed(*at, Seq::empty(), *disk) == *at);
            if !at.reached {
                if at.ahead == 0 {
                    at.reached = true;
                } else {
                    at.ahead = at.ahead - 1;
                    if disk.is_file(&view.path) {
                        at.kept = at.kept + 1;
                    }
                }
            }
        },
        LayoutState::Container { layout, children } => {
            let ghost s = shapes(children@);
            proof {
                lemma_shapes(children@);
            }
            let ghost start = *at;
            let mut i: usize = 0;
            assert(s.take(0) =~= Seq::empty());
            while i < children.len()
                invariant
                    *node is Container,
                    node->children == *children,
                    s == shapes(children@),
                    s.len() == children@.len(),
                    forall|k: int| 0 <= k < s.len() ==> #[trigger] s[k] == children@[k].shape(),
                    i <= s.len(),
                    *at == passed(start, leaves_all(s.take(i as int)), *disk),
                    at.kept + at.ahead <= usize::MAX,
                decreases children@.len() - i,
            {
                proof {
                    assert(s.take(i + 1).drop_last() =~= s.take(i as int));
                    assert(s.take(i + 1).last() == s[i as int]);
                    lemma_passed_add(
                        start,
                        leaves_all(s.take(i as int)),
                        leaves(s[i as int]),
                        *disk,
                    );
                    assert(decreases_to!(*node => node->children));
                    assert(decreases_to!(node->children => node->children@));
                    assert(decreases_to!(node->children@ => node->children@[i as int]));
                }
                pass_views(&children[i], at, disk);
                i += 1;
            }
            assert(s.take(i as int) =~= s);
        },
    }
}

/// The index of the focused view among those that are left.
fn prune_focus(layout: &LayoutState, focused: usize, disk: &Disk) -> (r: usize)
    ensures
        r == focus_pruned(layout@, focused as nat, *disk),
{
    let mut at = Passed { ahead: focused, kept: 0, reached: false };
    pass_views(layout, &mut at, disk);
    proof {
        lemma_passed(focused, leaves(layout@), *disk);
    }
    if at.reached {
        at.kept
    } else {
        focused
    }
}

/// A session without what is gone from disk. The focused view stays the
/// focused one.
pub open spec fn session_pruned(v: SessionView, disk: Disk) -> SessionView {
    SessionView {
        buffers: v.buffers.filter(|b: BufferView| disk.file_at(b.path)),
        layout: match v.layout {
            Some(l) => pruned(l, disk),
            None => None,
        },
        focused_view: match v.layout {
            Some(l) => focus_pruned(l, v.focused_view, disk),
            None => v.focused_view,
        },
        ..v
    }
}

impl Session {
    /// Drops buffers and views whose file no longer exists, so that
    /// restoring never fails halfway through the layout.
    pub fn prune_missing(&mut self, disk: &Disk)
        ensures
            final(self)@ == session_pruned(old(self)@, *disk),
    {
        let ghost s = buffer_views(self.buffers@);
        let ghost keep = |b: BufferView| disk.file_at(b.path);
        let mut kept: Vec<BufferState> = Vec::new();
        let mut rest: Vec<BufferState> = Vec::new();
        rest.append(&mut self.buffers);
        let ghost all = rest@;
        let ghost mut i: int = 0;
        assert(all.skip(0) =~= all);
        assert(buffer_views(kept@) =~= s.take(0).filter(keep)) by {
            reveal(Seq::filter);
        }
        while rest.len() > 0
            invariant
                0 <= i <= all.len(),
                rest@ == all.skip(i),
                s == buffer_views(all),
                keep == (|b: BufferView| disk.file_at(b.path)),
                buffer_views(kept@) == s.take(i).filter(keep),
            decreases rest@.len(),
        {
            let ghost before = kept@;
            let buffer = rest.remove(0);
            proof {
                assert(buffer == all[i]);
                assert(rest@ =~= all.skip(i + 1));
                reveal(Seq::filter);
                assert(s.take(i + 1).drop_last() =~= s.take(i));
                assert(s.take(i + 1).last() == buffer@);
            }
            if disk.is_file(&buffer.path) {
                kept.push(buffer);
                assert(buffer_views(kept@) =~= buffer_views(before).push(buffer@));
            }
            proof {
                i = i + 1;
            }
        }
        assert(s.take(i) =~= s);
        self.buffers = kept;
        if let Some(layout) = self.layout.take() {
            self.focused_view = prune_focus(&layout, self.focused_view, disk);
            self.layout = prune_layout(layout, disk);
        }
    }
}

impl SessionManager {
    /// The session that is loaded: `read` is what the session file holds, if
    /// there is one that parses. What no longer exists is dropped, and then
    /// no container is empty, as [`crate::restore::restore`] wants it.
    pub fn load(&self, read: Option<Session>, disk: &Disk) -> (r: Option<Session>)
        ensures
            opt_session(r) == (match read {
                Some(session) => Some(session_pruned(session@, *disk)),
                None => None,
            }),
            r matches Some(session) ==> (session@.layout matches Some(l) ==> nothing_empty(l)),
    {
        match read {
            Some(session) => {
                let mut session = session;
                proof {
                    if let Some(l) = session@.layout {
                        law_pruned(l, *disk);
                    }
                }
                session.prune_missing(disk);
                Some(session)
            },
            None => None,
        }
    }
}

// ── Taking the layout from the editor ────────────────────────────────────
/// The way in which views are split, as a mathematical value.
pub enum SplitView {
    View,
    Container { layout: Layout, children: Seq<SplitView> },
}

/// The way in which views are split.
#[derive(Debug)]
pub enum SplitTree {
    View,
    Container { layout: Layout, children: Vec<SplitTree> },
}

impl SplitTree {
    /// What the split is.
    pub open spec fn shape(self) -> SplitView
        decreases self,
    {
        match self {
            SplitTree::View => SplitView::View,
            SplitTree::Container { layout, children } => SplitView::Container {
                layout,
                children: split_shapes(children@),
            },
        }
    }
}

/// What several splits are.
pub open spec fn split_shapes(s: Seq<SplitTree>) -> Seq<SplitView>
    decreases s,
{
    if s.len() == 0 {
        Seq::empty()
    } else {
        split_shapes(s.drop_last()).push(s.last().shape())
    }
}

impl View for SplitTree {
    type V = SplitView;

    open spec fn view(&self) -> SplitView {
        self.shape()
    }
}

/// A view that is open in the editor, as a mathematical value.
pub struct OpenView {
    pub path: Option<Seq<char>>,
    pub focused: bool,
    pub selections: Seq<RangeState>,
    pub primary: usize,
    pub scroll_anchor: Pos,
    pub vertical_offset: usize,
    pub horizontal_offset: usize,
}

/// A view that is open in the editor.
#[derive(Debug)]
pub struct EditorView {
    /// The path of the document that the view shows, if it has one.
    pub path: Option<PathBuf>,
    pub focused: bool,
    pub selections: Vec<RangeState>,
    pub primary: usize,
    pub scroll_anchor: Pos,
    pub vertical_offset: usize,
    pub horizontal_offset: usize,
}

impl View for EditorView {
    type V = OpenView;

    open spec fn view(&self) -> OpenView {
        OpenView {
            path: match self.path {
                Some(p) => Some(p@),
                None => None,
            },
            focused: self.focused,
            selections: self.selections@,
            primary: self.primary,
            scroll_anchor: self.scroll_anchor,
            vertical_offset: self.vertical_offset,
            horizontal_offset: self.horizontal_offset,
        }
    }
}

/// The views that a list of values stands for.
pub open spec fn open_views(s: Seq<EditorView>) -> Seq<OpenView> {
    Seq::new(s.len(), |i: int| s[i]@)
}

/// What is persisted of a view with a path.
pub open spec fn leaf_of(v: OpenView) -> LeafView {
    LeafView {
        path: v.path->0,
        selections: v.selections,
        primary: v.primary,
        scroll_anchor: Some(v.scroll_anchor),
        vertical_offset: v.vertical_offset,
        horizontal_offset: v.horizontal_offset,
    }
}

/// How far the views have been taken: the next view, the number of leaves so
/// far, and which of the leaves is focused.
pub struct Progress {
    pub next: nat,
    pub leaf: nat,
    pub focus: nat,
}

/// The layout of a split, with the views that follow in it. A view without a
/// path is left out, and so is a container in which nothing is left.
pub open spec fn captured(node: SplitView, views: Seq<OpenView>, at: Progress) -> (
    Option<LayoutView>,
    Progress,
)
    decreases node,
{
    match node {
        SplitView::View => if at.next >= views.len() {
            (None, at)
        } else {
            let v = views[at.next as int];
            if v.path is None {
                (None, Progress { next: at.next + 1, ..at })
            } else {
                (
                    Some(LayoutView::View(leaf_of(v))),
                    Progress {
                        next: at.next + 1,
                        leaf: at.leaf + 1,
                        focus: if v.focused {
                            at.leaf
                        } else {
                            at.focus
                        },
                    },
                )
            }
        },
        SplitView::Container { layout, children } => {
            let (left, end) = captured_all(children, views, at);
            if left.len() == 0 {
                (None, end)
            } else {
                (Some(LayoutView::Container { layout, children: left }), end)
            }
        },
    }
}

/// The layouts of several splits.
pub open spec fn captured_all(s: Seq<SplitView>, views: Seq<OpenView>, at: Progress) -> (
    Seq<LayoutView>,
    Progress,
)
    decreases s,
{
    if s.len() == 0 {
        (Seq::empty(), at)
    } else {
        let (before, mid) = captured_all(s.drop_last(), views, at);
        let (one, end) = captured(s.last(), views, mid);
        match one {
            Some(l) => (before.push(l), end),
            None => (before, end),
        }
    }
}

/// How far the views have been taken.
#[derive(Debug, Clone, Copy)]
struct Capture {
    next: usize,
    leaf: usize,
    focus: usize,
}

spec fn progress(c: Capture) -> Progress {
    Progress { next: c.next as nat, leaf: c.leaf as nat, focus: c.focus as nat }
}

/// Copies ranges.
fn copy_ranges(s: &Vec<RangeState>) -> (r: Vec<RangeState>)
    ensures
        r@ == s@,
{
    let mut out: Vec<RangeState> = Vec::new();
    let mut i: usize = 0;
    while i < s.len()
        invariant
            i <= s@.len(),
            out@ == s@.take(i as int),
        decreases s@.len() - i,
    {
        out.push(s[i]);
        assert(out@ =~= s@.take(i + 1));
        i += 1;
    }
    assert(out@ =~= s@);
    out
}

fn layout_state(node: &SplitTree, views: &Vec<EditorView>, at: &mut Capture) -> (r: Option<
    LayoutState,
>)
    requires
        old(at).leaf <= old(at).next <= views@.len(),
    ensures
        (opt_layout(r), progress(*final(at))) == captured(
            node@,
            open_views(views@),
            progress(*old(at)),
        ),
        final(at).leaf <= final(at).next <= views@.len(),
    decreases *node,
{
    let ghost all = open_views(views@);
    match node {
        SplitTree::View => {
            let len = views.len();
            if at.next >= len {
                return None;
            }
            let view = &views[at.next];
            assert(all[at.next as int] == view@);
            at.next = at.next + 1;
            let path = match &view.path {
                Some(p) => p.clone(),
                None => {
                    return None;
                },
            };
            if view.focused {
                at.focus = at.leaf;
            }
            at.leaf = at.leaf + 1;
            Some(
                LayoutState::View(
                    ViewState {
                        path,
                        selections: copy_ranges(&view.selections),
                        primary: view.primary,
                        scroll_anchor: Some(view.scroll_anchor),
                        vertical_offset: view.vertical_offset,
                        horizontal_offset: view.horizontal_offset,
                    },
                ),
            )
        },
        SplitTree::Container { layout, children } => {
            let ghost s = children@;
            let ghost start = progress(*at);
            let mut left: Vec<LayoutState> = Vec::new();
            let mut i: usize = 0;
            assert(split_shapes(s.take(0)) =~= Seq::empty());
            assert(shapes(left@) =~= Seq::empty());
            while i < children.len()
                invariant
                    *node is Container,
                    node->children == *children,
                    s == children@,
                    all == open_views(views@),
                    i <= s.len(),
                    at.leaf <= at.next <= views@.len(),
                    (shapes(left@), progress(*at)) == captured_all(
                        split_shapes(s.take(i as int)),
                        all,
                        start,
                    ),
                decreases children@.len() - i,
            {
                let ghost before = left@;
                assert(s.take(i + 1).drop_last() =~= s.take(i as int));
                assert(s.take(i + 1).last() == s[i as int]);
                assert(split_shapes(s.take(i + 1)).drop_last() =~= split_shapes(s.take(i as int)));
                assert(decreases_to!(*node => node->children));
                assert(decreases_to!(node->children => node->children@));
                assert(decreases_to!(node->children@ => node->children@[i as int]));
                if let Some(l) = layout_state(&children[i], views, at) {
                    left.push(l);
                    assert(left@.drop_last() =~= before);
                }
                i += 1;
            }
            assert(s.take(i as int) =~= s);
            proof {
                lemma_shapes(left@);
            }
            if left.len() == 0 {
                None
            } else {
                Some(LayoutState::Container { layout: *layout, children: left })
            }
        },
    }
}

// ── Snapshots ────────────────────────────────────────────────────────────
/// A document of the editor.
#[derive(Debug)]
pub struct Document {
    /// The path of the document, if it has one.
    pub path: Option<PathBuf>,
    /// The primary cursor, in one of the views that the document has a
    /// selection for.
    pub cursor: Option<Pos>,
}

/// What is persisted of the documents: those with a path.
pub open spec fn buffers_of(s: Seq<Document>) -> Seq<BufferView>
    decreases s.len(),
{
    if s.len() == 0 {
        Seq::empty()
    } else {
        let before = buffers_of(s.drop_last());
        match s.last().path {
            Some(p) => before.push(BufferView { path: p@, cursor: s.last().cursor }),
            None => before,
        }
    }
}

/// The session that an editor is in, if there is anything worth persisting.
pub open spec fn snapshot_of(
    workspace: Seq<char>,
    documents: Seq<Document>,
    splits: Option<SplitView>,
    views: Seq<OpenView>,
    sidebar: Option<StateView>,
) -> Option<SessionView> {
    let buffers = buffers_of(documents);
    if buffers.len() == 0 {
        None
    } else {
        let start = Progress { next: 0, leaf: 0, focus: 0 };
        let (layout, end) = match splits {
            Some(node) => captured(node, views, start),
            None => (None, start),
        };
        Some(
            SessionView {
                version: SESSION_VERSION,
                workspace,
                buffers,
                layout,
                focused_view: end.focus,
                sidebar,
            },
        )
    }
}

/// What is persisted of the sidebar: its browsing position.
pub open spec fn sidebar_of(sidebar: Option<FileTree>) -> Option<StateView> {
    match sidebar {
        Some(tree) => Some(state_of(tree@)),
        None => None,
    }
}

/// What is persisted of the sidebar.
fn sidebar_state(sidebar: &FileTree) -> (r: SidebarState)
    ensures
        r@ == state_of(sidebar@),
{
    let state = sidebar.state();
    SidebarState {
        root: state.root,
        expanded: state.expanded,
        selected: state.selected,
        scroll: state.scroll,
    }
}

/// What an optional session is.
pub open spec fn opt_session(s: Option<Session>) -> Option<SessionView> {
    match s {
        Some(s) => Some(s@),
        None => None,
    }
}

/// What an optional split is.
pub open spec fn opt_split(s: Option<SplitTree>) -> Option<SplitView> {
    match s {
        Some(s) => Some(s@),
        None => None,
    }
}

/// Builds a [`Session`] from the current editor and sidebar state: `views`
/// are the views of the editor in the order in which `splits` has them.
/// Returns `None` when there is nothing worth persisting (no file-backed
/// buffer).
pub fn snapshot(
    workspace: &PathBuf,
    documents: &Vec<Document>,
    splits: &Option<SplitTree>,
    views: &Vec<EditorView>,
    sidebar: &Option<FileTree>,
) -> (r: Option<Session>)
    ensures
        opt_session(r) == snapshot_of(
            workspace@,
            documents@,
            opt_split(*splits),
            open_views(views@),
            sidebar_of(*sidebar),
        ),
{
    let ghost s = documents@;
    let mut buffers: Vec<BufferState> = Vec::new();
    let mut i: usize = 0;
    assert(buffer_views(buffers@) =~= buffers_of(s.take(0)));
    while i < documents.len()
        invariant
            i <= s.len(),
            s == documents@,
            buffer_views(buffers@) == buffers_of(s.take(i as int)),
        decreases documents@.len() - i,
    {
        let doc = &documents[i];
        assert(s.take(i + 1).drop_last() =~= s.take(i as int));
        assert(s.take(i + 1).last() == s[i as int]);
        if let Some(path) = &doc.path {
            let ghost before = buffers@;
            let buffer = BufferState { path: path.clone(), cursor: doc.cursor };
            buffers.push(buffer);
            assert(buffer_views(buffers@) =~= buffer_views(before).push(buffer@));
        }
        i += 1;
    }
    assert(s.take(i as int) =~= s);
    assert(buffer_views(buffers@).len() == buffers@.len());
    if buffers.len() == 0 {
        return None;
    }
    let mut at = Capture { next: 0, leaf: 0, focus: 0 };
    let layout = match splits {
        Some(node) => layout_state(node, views, &mut at),
        None => None,
    };
    let sidebar = match sidebar {
        Some(tree) => Some(sidebar_state(tree)),
        None => None,
    };
    Some(
        Session {
            version: SESSION_VERSION,
            workspace: workspace.clone(),
            buffers,
            layout,
            focused_view: at.focus,
            sidebar,
        },
    )
}

// ── Laws of pruning ──────────────────────────────────────────────────────
proof fn lemma_pruned(l: LayoutView, disk: Disk)
    ensures
        opt_leaves(pruned(l, disk)) == leaves(l).filter(|v: LeafView| disk.file_at(v.path)),
        pruned(l, disk) matches Some(p) ==> nothing_empty(p) && pruned(p, disk) == Some(p),
    decreases l,
{
    let keep = |v: LeafView| disk.file_at(v.path);
    reveal(Seq::filter);
    match l {
        LayoutView::View(v) => {
            assert(seq![v].drop_last() =~= Seq::empty());
            assert(seq![v].last() == v);
            assert(Seq::<LeafView>::empty().filter(keep) =~= Seq::empty());
            assert(seq![v].filter(keep) =~= opt_leaves(pruned(l, disk)));
        },
        LayoutView::Container { layout, children } => {
            lemma_pruned_all(children, disk);
        },
    }
}

proof fn lemma_pruned_all(s: Seq<LayoutView>, disk: Disk)
    ensures
        leaves_all(pruned_all(s, disk)) == leaves_all(s).filter(
            |v: LeafView| disk.file_at(v.path),
        ),
        none_empty(pruned_all(s, disk)),
        pruned_all(pruned_all(s, disk), disk) == pruned_all(s, disk),
        pruned_all(s, disk).len() == 0 ==> leaves_all(pruned_all(s, disk)) == Seq::<
            LeafView,
        >::empty(),
    decreases s,
{
    let keep = |v: LeafView| disk.file_at(v.path);
    if s.len() == 0 {
        reveal(Seq::filter);
        assert(Seq::<LeafView>::empty().filter(keep) =~= Seq::empty());
    } else {
        let before = s.drop_last();
        lemma_pruned_all(before, disk);
        lemma_pruned(s.last(), disk);
        Seq::filter_distributes_over_add(leaves_all(before), leaves(s.last()), keep);
        let p = pruned_all(before, disk);
        match pruned(s.last(), disk) {
            Some(l) => {
                assert(p.push(l).drop_last() =~= p);
            },
            None => {
                assert(leaves_all(p) + Seq::empty() =~= leaves_all(p));
            },
        }
    }
}

/// Pruning keeps exactly the views whose file is there, in their order, and
/// leaves no container empty; pruning once more changes nothing.
pub proof fn law_pruned(l: LayoutView, disk: Disk)
    ensures
        opt_leaves(pruned(l, disk)) == leaves(l).filter(|v: LeafView| disk.file_at(v.path)),
        pruned(l, disk) matches Some(p) ==> nothing_empty(p) && pruned(p, disk) == Some(p),
        pruned(l, disk) is None <==> opt_leaves(pruned(l, disk)).len() == 0,
{
    lemma_pruned(l, disk);
    if let Some(p) = pruned(l, disk) {
        lemma_has_leaves(p);
    }
}

/// Pruning keeps the focus: the view that was focused, if its file is there,
/// is the one at the new index; and else the next one whose file is there.
/// `j` is the index of that view before pruning.
pub proof fn law_focus_kept(l: LayoutView, focused: nat, j: int, disk: Disk)
    requires
        focused <= j < leaves(l).len(),
        disk.file_at(leaves(l)[j].path),
        forall|k: int| focused <= k < j ==> !disk.file_at((#[trigger] leaves(l)[k]).path),
    ensures
        pruned(l, disk) matches Some(p) && {
            &&& focus_pruned(l, focused, disk) < leaves(p).len()
            &&& leaves(p)[focus_pruned(l, focused, disk) as int] == leaves(l)[j]
        },
{
    let keep = |v: LeafView| disk.file_at(v.path);
    law_pruned(l, disk);
    assert forall|k: int| focused <= k < j implies !keep(#[trigger] leaves(l)[k]) by {}
    lemma_filter_next(leaves(l), focused as int, j, keep);
}

/// The next item that is kept, from the `i`-th on, comes behind those before
/// the `i`-th that are kept.
proof fn lemma_filter_next(s: Seq<LeafView>, i: int, j: int, keep: spec_fn(LeafView) -> bool)
    requires
        0 <= i <= j < s.len(),
        keep(s[j]),
        forall|k: int| i <= k < j ==> !keep(#[trigger] s[k]),
    ensures
        s.take(i).filter(keep).len() < s.filter(keep).len(),
        s.filter(keep)[s.take(i).filter(keep).len() as int] == s[j],
{
    let (a, b, c) = (s.take(i), s.subrange(i, j), s.skip(j + 1));
    let one = seq![s[j]];
    assert(s =~= a + (b + (one + c)));
    Seq::filter_distributes_over_add(a, b + (one + c), keep);
    Seq::filter_distributes_over_add(b, one + c, keep);
    Seq::filter_distributes_over_add(one, c, keep);
    assert(b.filter(keep).len() == 0) by {
        assert forall|k: int| 0 <= k < b.len() implies !keep(#[trigger] b[k]) by {
            assert(b[k] == s[i + k]);
        }
        lemma_filter_none(b, keep);
    }
    assert(one.filter(keep) =~= one) by {
        reveal(Seq::filter);
        assert(one.drop_last() =~= Seq::empty());
    }
}

proof fn lemma_filter_none(s: Seq<LeafView>, keep: spec_fn(LeafView) -> bool)
    requires
        forall|k: int| 0 <= k < s.len() ==> !keep(#[trigger] s[k]),
    ensures
        s.filter(keep).len() == 0,
    decreases s.len(),
{
    reveal(Seq::filter);
    if s.len() > 0 {
        assert(!keep(s[s.len() - 1]));
        assert forall|k: int| 0 <= k < s.drop_last().len() implies !keep(
            #[trigger] s.drop_last()[k],
        ) by {
            assert(s.drop_last()[k] == s[k]);
        }
        lemma_filter_none(s.drop_last(), keep);
    }
}

/// A layout all of whose files are there stays as it is.
pub proof fn law_nothing_pruned(l: LayoutView, disk: Disk)
    requires
        nothing_empty(l),
        forall|i: int| 0 <= i < leaves(l).len() ==> disk.file_at((#[trigger] leaves(l)[i]).path),
    ensures
        pruned(l, disk) == Some(l),
    decreases l,
{
    match l {
        LayoutView::View(v) => {
            assert(leaves(l)[0] == v);
        },
        LayoutView::Container { layout, children } => {
            lemma_nothing_pruned_all(children, disk);
        },
    }
}

proof fn lemma_nothing_pruned_all(s: Seq<LayoutView>, disk: Disk)
    requires
        none_empty(s),
        forall|i: int|
            0 <= i < leaves_all(s).len() ==> disk.file_at((#[trigger] leaves_all(s)[i]).path),
    ensures
        pruned_all(s, disk) == s,
    decreases s,
{
    if s.len() > 0 {
        let (a, b) = (leaves_all(s.drop_last()), leaves(s.last()));
        assert forall|i: int| 0 <= i < a.len() implies disk.file_at((#[trigger] a[i]).path) by {
            assert(leaves_all(s)[i] == a[i]);
        }
        assert forall|i: int| 0 <= i < b.len() implies disk.file_at((#[trigger] b[i]).path) by {
            assert(leaves_all(s)[a.len() + i] == b[i]);
        }
        lemma_nothing_pruned_all(s.drop_last(), disk);
        law_nothing_pruned(s.last(), disk);
        assert(s.drop_last().push(s.last()) =~= s);
    } else {
        assert(pruned_all(s, disk) =~= s);
    }
}

/// A layout without empty containers has views.
pub proof fn lemma_has_leaves(l: LayoutView)
    requires
        nothing_empty(l),
    ensures
        leaves(l).len() > 0,
    decreases l,
{
    if let LayoutView::Container { layout, children } = l {
        lemma_has_leaves(children.last());
    }
}

// ── Laws of snapshots ────────────────────────────────────────────────────
/// What is persisted of views: those with a path.
pub open spec fn persisted(views: Seq<OpenView>) -> Seq<LeafView>
    decreases views.len(),
{
    if views.len() == 0 {
        Seq::empty()
    } else if views.last().path is Some {
        persisted(views.drop_last()).push(leaf_of(views.last()))
    } else {
        persisted(views.drop_last())
    }
}

/// The position of the focused view among those that are persisted.
spec fn focus_among(views: Seq<OpenView>, leaf: nat, focus: nat) -> nat
    decreases views.len(),
{
    if views.len() == 0 {
        focus
    } else if views.last().path is Some && views.last().focused {
        leaf + persisted(views.drop_last()).len()
    } else {
        focus_among(views.drop_last(), leaf, focus)
    }
}

proof fn lemma_persisted_add(a: Seq<OpenView>, b: Seq<OpenView>)
    ensures
        persisted(a + b) == persisted(a) + persisted(b),
    decreases b.len(),
{
    if b.len() == 0 {
        assert(a + b =~= a);
        assert(persisted(a) + Seq::empty() =~= persisted(a));
    } else {
        lemma_persisted_add(a, b.drop_last());
        assert((a + b).drop_last() =~= a + b.drop_last());
        assert((a + b).last() == b.last());
        assert(persisted(a) + persisted(b.drop_last()).push(leaf_of(b.last())) =~= (persisted(a)
            + persisted(b.drop_last())).push(leaf_of(b.last())));
    }
}

proof fn lemma_focus_add(a: Seq<OpenView>, b: Seq<OpenView>, leaf: nat, focus: nat)
    ensures
        focus_among(a + b, leaf, focus) == focus_among(
            b,
            leaf + persisted(a).len(),
            focus_among(a, leaf, focus),
        ),
    decreases b.len(),
{
    if b.len() == 0 {
        assert(a + b =~= a);
    } else {
        assert((a + b).drop_last() =~= a + b.drop_last());
        assert((a + b).last() == b.last());
        lemma_persisted_add(a, b.drop_last());
        lemma_focus_add(a, b.drop_last(), leaf, focus);
    }
}

proof fn lemma_captured(node: SplitView, views: Seq<OpenView>, at: Progress)
    requires
        at.next <= views.len(),
    ensures
        ({
            let (l, end) = captured(node, views, at);
            let taken = views.subrange(at.next as int, end.next as int);
            &&& at.next <= end.next <= views.len()
            &&& opt_leaves(l) == persisted(taken)
            &&& end.leaf == at.leaf + persisted(taken).len()
            &&& end.focus == focus_among(taken, at.leaf, at.focus)
            &&& l matches Some(l) ==> nothing_empty(l)
        }),
    decreases node,
{
    match node {
        SplitView::View => {
            let end = captured(node, views, at).1;
            let taken = views.subrange(at.next as int, end.next as int);
            if at.next < views.len() {
                let v = views[at.next as int];
                assert(taken =~= seq![v]);
                assert(taken.drop_last() =~= Seq::empty());
                assert(persisted(Seq::<OpenView>::empty()) =~= Seq::empty());
                assert(focus_among(Seq::<OpenView>::empty(), at.leaf, at.focus) == at.focus);
                if v.path is Some {
                    assert(persisted(taken) =~= seq![leaf_of(v)]);
                }
            } else {
                assert(taken =~= Seq::empty());
            }
        },
        SplitView::Container { layout, children } => {
            lemma_captured_all(children, views, at);
        },
    }
}

proof fn lemma_captured_all(s: Seq<SplitView>, views: Seq<OpenView>, at: Progress)
    requires
        at.next <= views.len(),
    ensures
        ({
            let (ls, end) = captured_all(s, views, at);
            let taken = views.subrange(at.next as int, end.next as int);
            &&& at.next <= end.next <= views.len()
            &&& leaves_all(ls) == persisted(taken)
            &&& end.leaf == at.leaf + persisted(taken).len()
            &&& end.focus == focus_among(taken, at.leaf, at.focus)
            &&& none_empty(ls)
        }),
    decreases s,
{
    if s.len() == 0 {
        assert(views.subrange(at.next as int, at.next as int) =~= Seq::empty());
    } else {
        let (before, mid) = captured_all(s.drop_last(), views, at);
        lemma_captured_all(s.drop_last(), views, at);
        lemma_captured(s.last(), views, mid);
        let (one, end) = captured(s.last(), views, mid);
        let a = views.subrange(at.next as int, mid.next as int);
        let b = views.subrange(mid.next as int, end.next as int);
        assert(views.subrange(at.next as int, end.next as int) =~= a + b);
        lemma_persisted_add(a, b);
        lemma_focus_add(a, b, at.leaf, at.focus);
        match one {
            Some(l) => {
                assert(before.push(l).drop_last() =~= before);
            },
            None => {
                assert(leaves_all(before) + Seq::empty() =~= leaves_all(before));
            },
        }
    }
}

/// The number of views that a split has room for.
pub open spec fn view_count(node: SplitView) -> nat
    decreases node,
{
    match node {
        SplitView::View => 1,
        SplitView::Container { layout, children } => view_counts(children),
    }
}

/// The number of views that several splits have room for.
pub open spec fn view_counts(s: Seq<SplitView>) -> nat
    decreases s,
{
    if s.len() == 0 {
        0
    } else {
        view_counts(s.drop_last()) + view_count(s.last())
    }
}

proof fn lemma_taken(node: SplitView, views: Seq<OpenView>, at: Progress)
    requires
        at.next + view_count(node) <= views.len(),
    ensures
        captured(node, views, at).1.next == at.next + view_count(node),
    decreases node,
{
    if let SplitView::Container { layout, children } = node {
        lemma_taken_all(children, views, at);
    }
}

proof fn lemma_taken_all(s: Seq<SplitView>, views: Seq<OpenView>, at: Progress)
    requires
        at.next + view_counts(s) <= views.len(),
    ensures
        captured_all(s, views, at).1.next == at.next + view_counts(s),
    decreases s,
{
    if s.len() > 0 {
        lemma_taken_all(s.drop_last(), views, at);
        lemma_taken(s.last(), views, captured_all(s.drop_last(), views, at).1);
    }
}

proof fn lemma_focus_bound(views: Seq<OpenView>)
    ensures
        persisted(views).len() > 0 ==> focus_among(views, 0, 0) < persisted(views).len(),
        persisted(views).len() == 0 ==> focus_among(views, 0, 0) == 0,
    decreases views.len(),
{
    if views.len() > 0 {
        lemma_focus_bound(views.drop_last());
    }
}

proof fn lemma_focus(views: Seq<OpenView>, i: int, leaf: nat, focus: nat)
    requires
        0 <= i < views.len(),
        views[i].focused,
        views[i].path is Some,
        forall|j: int| 0 <= j < views.len() && j != i ==> !(#[trigger] views[j]).focused,
    ensures
        focus_among(views, leaf, focus) == leaf + persisted(views.take(i)).len(),
        persisted(views.take(i)).len() < persisted(views).len(),
        persisted(views)[persisted(views.take(i)).len() as int] == leaf_of(views[i]),
    decreases views.len(),
{
    let before = views.drop_last();
    if i == views.len() - 1 {
        assert(before =~= views.take(i));
    } else {
        assert(!views[views.len() - 1].focused);
        assert forall|j: int| 0 <= j < before.len() && j != i implies !(
        #[trigger] before[j]).focused by {
            assert(before[j] == views[j]);
        }
        lemma_focus(before, i, leaf, focus);
        assert(before.take(i) =~= views.take(i));
    }
}

/// In every snapshot with a layout no container is empty, and the index of
/// the focused view is that of one of its views.
pub proof fn law_snapshot_focus(
    workspace: Seq<char>,
    documents: Seq<Document>,
    splits: Option<SplitView>,
    views: Seq<OpenView>,
    sidebar: Option<StateView>,
)
    ensures
        snapshot_of(workspace, documents, splits, views, sidebar) matches Some(v) ==> (
        v.layout matches Some(l) ==> nothing_empty(l) && v.focused_view < leaves(l).len()),
{
    if let Some(node) = splits {
        let start = Progress { next: 0, leaf: 0, focus: 0 };
        lemma_captured(node, views, start);
        let (l, end) = captured(node, views, start);
        let taken = views.subrange(0, end.next as int);
        lemma_focus_bound(taken);
        if let Some(l) = l {
            lemma_has_leaves(l);
        }
    }
}

/// A snapshot of a layout with a view for each of its places: its leaves are
/// the views with a path, in their order, and no container is empty. The
/// focused view, if it has a path, is the leaf that the snapshot says.
pub proof fn law_snapshot_layout(node: SplitView, views: Seq<OpenView>, i: int)
    requires
        view_count(node) == views.len(),
        0 <= i < views.len(),
        views[i].focused,
        forall|j: int| 0 <= j < views.len() && j != i ==> !(#[trigger] views[j]).focused,
    ensures
        ({
            let (l, end) = captured(node, views, Progress { next: 0, leaf: 0, focus: 0 });
            &&& opt_leaves(l) == persisted(views)
            &&& l matches Some(l) ==> nothing_empty(l) && end.focus < leaves(l).len()
            &&& views[i].path is Some ==> end.focus < opt_leaves(l).len() && opt_leaves(
                l,
            )[end.focus as int] == leaf_of(views[i])
        }),
{
    let start = Progress { next: 0, leaf: 0, focus: 0 };
    lemma_taken(node, views, start);
    lemma_captured(node, views, start);
    assert(views.subrange(0, views.len() as int) =~= views);
    lemma_focus_bound(views);
    if let Some(l) = captured(node, views, start).0 {
        lemma_has_leaves(l);
    }
    if views[i].path is Some {
        lemma_focus(views, i, 0, 0);
    }
}

} // verus!

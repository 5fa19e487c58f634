use helix_workspace::args::{Args, Layout, Position, SessionArg};
use helix_workspace::disk::{Disk, FileKind};
use helix_workspace::entry::{DirItem, Listings};
use helix_workspace::file_tree::FileTree;
use helix_workspace::layout::{prune_layout, snapshot, Document, EditorView, SplitTree};
use helix_workspace::path::PathBuf;
use helix_workspace::restore::{restore, restore_sidebar, Call, Reply};
use helix_workspace::session::{
    sanitize_name, BufferState, LayoutState, Pos, RangeState, Session, SessionConfig, SessionFile,
    SessionManager, SidebarState, ViewState,
};

fn p(s: &str) -> PathBuf {
    PathBuf::from(s)
}

fn pos(row: usize, col: usize) -> Pos {
    Pos { row, col }
}

fn files(paths: &[&str]) -> Disk {
    Disk { known: paths.iter().map(|s| (p(s), FileKind::File)).collect() }
}

// ── configuration ────────────────────────────────────────────────────────

fn resolve(session: SessionArg, dir: Option<&str>, env: Option<&str>, dir_env: Option<&str>) -> Option<SessionConfig> {
    let mut args = Args::default();
    args.session = session;
    args.session_dir = dir.map(p);
    SessionConfig::resolve(&args, &env.map(|s| s.to_string()), &dir_env.map(p), &p("/cache/helix"))
}

#[test]
fn the_command_line_goes_before_the_environment() {
    let enabled = |n: Option<&str>| SessionArg::Enabled(n.map(|s| s.to_string()));
    assert!(resolve(SessionArg::Disabled, None, Some("name"), None).is_none());
    let c = resolve(enabled(None), None, Some("off"), None).unwrap();
    assert_eq!(c.name, None);
    let c = resolve(enabled(Some("cli")), Some("/d"), Some("env"), Some("/e")).unwrap();
    assert_eq!(c.name.as_deref(), Some("cli"));
    assert_eq!(c.dir, p("/d"));
    let c = resolve(SessionArg::Unspecified, None, Some("Env"), Some("/e")).unwrap();
    assert_eq!(c.name.as_deref(), Some("Env"));
    assert_eq!(c.dir, p("/e"));
}

#[test]
fn values_of_the_environment() {
    for value in ["0", "false", "off", "no", "OFF", "No"] {
        assert!(resolve(SessionArg::Unspecified, None, Some(value), None).is_none(), "{value}");
    }
    for value in ["", "1", "true", "on", "yes", "Yes"] {
        let c = resolve(SessionArg::Unspecified, None, Some(value), None).unwrap();
        assert_eq!(c.name, None, "{value}");
    }
    let c = resolve(SessionArg::Unspecified, None, None, None).unwrap();
    assert_eq!(c.name, None);
    assert_eq!(c.dir, p("/cache/helix/sessions"));
}

#[test]
fn names_are_made_safe() {
    let c = resolve(SessionArg::Unspecified, None, Some("../a b/ü_C-1.x"), None).unwrap();
    assert_eq!(c.name.as_deref(), Some("..ab_C-1.x"));
    assert_eq!(sanitize_name("fix/bug #1_a.b-c"), "fixbug1_a.b-c");
    assert_eq!(sanitize_name("fixbug1_a.b-c"), "fixbug1_a.b-c");
    assert_eq!(c.clone().name, c.name);
}

#[test]
fn session_files_are_named_after_the_workspace() {
    let mut c = SessionConfig { name: None, dir: p("/s") };
    // FNV-1a of nothing, and of known texts
    assert_eq!(c.file_for(&p("")), p("/s/cbf29ce484222325.toml"));
    assert_eq!(c.file_for(&p("a")), p("/s/af63dc4c8601ec8c.toml"));
    assert_eq!(c.file_for(&p("foobar")), p("/s/85944171f73967e8.toml"));
    c.name = Some("bugfix".to_string());
    assert_eq!(c.file_for(&p("a")), p("/s/af63dc4c8601ec8c.bugfix.toml"));
    assert!(c.file_for(&p("/é")) != c.file_for(&p("/e")));
}

// ── the manager ──────────────────────────────────────────────────────────

fn session_file(name: &str, modified: Option<u64>) -> SessionFile {
    SessionFile { name: name.to_string(), modified }
}

fn managed(name: Option<&str>, files: Vec<SessionFile>) -> String {
    let config = SessionConfig { name: name.map(|s| s.to_string()), dir: p("/s") };
    SessionManager::new(&config, p("a"), &files, 0).file().text.clone()
}

#[test]
fn the_latest_session_is_opened() {
    let all = || {
        vec![
            session_file("af63dc4c8601ec8c.toml", Some(5)),
            session_file("af63dc4c8601ec8c.bugfix.toml", Some(9)),
            session_file("af63dc4c8601ec8c.other.toml", None),
            session_file("cbf29ce484222325.toml", Some(99)),
            session_file("af63dc4c8601ec8c.toml.bak", Some(99)),
            session_file("af63dc4c8601ec8cx.toml", Some(99)),
        ]
    };
    assert_eq!(managed(None, all()), "/s/af63dc4c8601ec8c.bugfix.toml");
    assert_eq!(managed(Some("other"), all()), "/s/af63dc4c8601ec8c.other.toml");
    assert_eq!(managed(None, vec![]), "/s/af63dc4c8601ec8c.toml");
    // of several with one time, the last
    let tied = vec![
        session_file("af63dc4c8601ec8c.x.toml", None),
        session_file("af63dc4c8601ec8c.y.toml", None),
    ];
    assert_eq!(managed(None, tied), "/s/af63dc4c8601ec8c.y.toml");
}

#[test]
fn saving_is_throttled() {
    let config = SessionConfig { name: None, dir: p("/s") };
    let mut m = SessionManager::new(&config, p("a"), &vec![], 5000);
    let text = |s: &str| Some(s.to_string());
    assert!(!m.due(5999));
    assert!(m.save_if_changed(5999, &text("one")).is_none());
    assert!(m.save_if_changed(6000, &None).is_none());
    let w = m.save_if_changed(6000, &text("one")).unwrap();
    assert_eq!(w.file, p("/s/af63dc4c8601ec8c.toml"));
    assert_eq!(w.directory, Some(p("/s")));
    m.written(&w, true, 6000);
    // throttled, then unchanged, then changed
    assert!(m.save_if_changed(6999, &text("two")).is_none());
    assert!(m.save_if_changed(7000, &text("one")).is_none());
    let w = m.save_if_changed(7000, &text("two")).unwrap();
    // a failure is not retried at once, but later
    m.written(&w, false, 7000);
    assert!(m.save_if_changed(7500, &text("two")).is_none());
    assert!(m.save_if_changed(8000, &text("two")).is_some());
    // time that runs backwards does not count
    assert!(!m.due(10));
}

#[test]
fn saving_on_exit() {
    let config = SessionConfig { name: None, dir: p("/s") };
    let mut m = SessionManager::new(&config, p("a"), &vec![], 5000);
    let text = Some("one".to_string());
    let w = m.save(5001, &text).unwrap();
    m.written(&w, true, 5001);
    assert!(m.save(5002, &text).is_some());
    assert_eq!(m.last_write, 4002);
    assert!(m.save(5, &None).is_none());
    assert_eq!(m.last_write, 0);
}

// ── snapshots ────────────────────────────────────────────────────────────

fn view(path: Option<&str>, focused: bool) -> EditorView {
    EditorView {
        path: path.map(p),
        focused,
        selections: vec![RangeState { anchor: pos(1, 2), head: pos(3, 4) }],
        primary: 0,
        scroll_anchor: pos(5, 0),
        vertical_offset: 6,
        horizontal_offset: 7,
    }
}

fn row(children: Vec<SplitTree>) -> SplitTree {
    SplitTree::Container { layout: Layout::Vertical, children }
}

fn shape(l: &LayoutState) -> String {
    match l {
        LayoutState::View(v) => v.path.text.clone(),
        LayoutState::Container { layout, children } => {
            let inner: Vec<String> = children.iter().map(shape).collect();
            let open = if *layout == Layout::Vertical { "v" } else { "h" };
            format!("{}({})", open, inner.join(" "))
        }
    }
}

fn document(path: Option<&str>, cursor: Option<Pos>) -> Document {
    Document { path: path.map(p), cursor }
}

#[test]
fn a_snapshot_of_the_editor() {
    let docs = vec![
        document(Some("/w/a"), Some(pos(1, 1))),
        document(None, None),
        document(Some("/w/b"), None),
    ];
    let splits = Some(row(vec![
        SplitTree::View,
        SplitTree::Container {
            layout: Layout::Horizontal,
            children: vec![SplitTree::View, SplitTree::View],
        },
        row(vec![SplitTree::View]),
    ]));
    let views = vec![
        view(None, false),
        view(Some("/w/a"), false),
        view(Some("/w/b"), true),
        view(None, false),
    ];
    let s = snapshot(&p("/w"), &docs, &splits, &views, &None).unwrap();
    assert_eq!(s.version, 1);
    assert_eq!(s.workspace, p("/w"));
    assert_eq!(s.buffers.len(), 2);
    assert_eq!(s.buffers[0].path, p("/w/a"));
    assert_eq!(s.buffers[0].cursor, Some(pos(1, 1)));
    assert_eq!(shape(s.layout.as_ref().unwrap()), "v(h(/w/a /w/b))");
    assert_eq!(s.focused_view, 1);
    assert!(s.sidebar.is_none());
    // what a view holds goes along
    match s.layout.unwrap() {
        LayoutState::Container { mut children, .. } => match children.remove(0) {
            LayoutState::Container { mut children, .. } => match children.remove(1) {
                LayoutState::View(v) => {
                    assert_eq!(v.selections, [RangeState { anchor: pos(1, 2), head: pos(3, 4) }]);
                    assert_eq!(v.scroll_anchor, Some(pos(5, 0)));
                    assert_eq!((v.vertical_offset, v.horizontal_offset), (6, 7));
                }
                other => panic!("{:?}", other),
            },
            other => panic!("{:?}", other),
        },
        other => panic!("{:?}", other),
    }
}

#[test]
fn a_snapshot_focuses_one_of_its_views() {
    let docs = vec![document(Some("/w/a"), None)];
    let splits = Some(row(vec![SplitTree::View, SplitTree::View, SplitTree::View]));
    let focus = |views: Vec<EditorView>| {
        snapshot(&p("/w"), &docs, &splits, &views, &None).unwrap().focused_view
    };
    let a = |focused: bool| view(Some("/w/a"), focused);
    assert_eq!(focus(vec![a(false), a(false), a(true)]), 2);
    assert_eq!(focus(vec![view(None, false), a(false), a(true)]), 1);
    // a focused view without a file is not saved: the first one is focused
    assert_eq!(focus(vec![a(false), a(false), view(None, true)]), 0);
}

#[test]
fn nothing_worth_a_snapshot() {
    let docs = vec![document(None, Some(pos(0, 0)))];
    assert!(snapshot(&p("/w"), &docs, &Some(SplitTree::View), &vec![], &None).is_none());
    // scratch views leave no layout behind
    let docs = vec![document(Some("/w/a"), None)];
    let s = snapshot(&p("/w"), &docs, &Some(SplitTree::View), &vec![view(None, true)], &None);
    assert!(s.unwrap().layout.is_none());
    let s = snapshot(&p("/w"), &docs, &None, &vec![], &None).unwrap();
    assert!(s.layout.is_none());
    assert_eq!(s.focused_view, 0);
}

fn listings() -> Listings {
    let item = |path: &str, is_dir: bool| DirItem { path: p(path), is_dir };
    Listings {
        dirs: vec![
            (p("/w"), vec![item("/w/sub", true), item("/w/top.txt", false)]),
            (p("/w/sub"), vec![item("/w/sub/a.txt", false)]),
        ],
    }
}

#[test]
fn the_sidebar_comes_back() {
    let mut tree = FileTree::new(p("/w"), &listings(), &vec![]);
    tree.toggle_expand(0, &listings());
    tree.selected = 1;
    tree.scroll = 1;
    let docs = vec![document(Some("/w/top.txt"), None)];
    let s = snapshot(&p("/w"), &docs, &None, &vec![], &Some(tree)).unwrap();
    let state = s.sidebar.unwrap();
    assert_eq!(state.root, p("/w"));
    assert_eq!(state.expanded, [p("/w/sub")]);
    assert_eq!(state.selected, Some(p("/w/sub/a.txt")));

    let back = restore_sidebar(&state, true, &listings(), &vec![]).unwrap();
    assert_eq!(back.entries.len(), 3);
    assert!(back.entries[0].expanded);
    assert_eq!((back.selected, back.scroll), (1, 1));
    assert!(restore_sidebar(&state, false, &listings(), &vec![]).is_none());
}

#[test]
fn a_sidebar_whose_entries_are_gone() {
    let state = SidebarState {
        root: p("/w"),
        expanded: vec![p("/w/gone"), p("/w/sub")],
        selected: Some(p("/w/gone/x")),
        scroll: 3,
    };
    let back = restore_sidebar(&state, true, &listings(), &vec![]).unwrap();
    assert_eq!(back.entries.len(), 3);
    assert_eq!((back.selected, back.scroll), (0, 3));
}

// ── pruning ──────────────────────────────────────────────────────────────

fn leaf(path: &str) -> LayoutState {
    LayoutState::View(ViewState {
        path: p(path),
        selections: vec![RangeState { anchor: pos(0, 0), head: pos(0, 1) }],
        primary: 9,
        scroll_anchor: None,
        vertical_offset: 1,
        horizontal_offset: 2,
    })
}

fn container(layout: Layout, children: Vec<LayoutState>) -> LayoutState {
    LayoutState::Container { layout, children }
}

fn nested() -> LayoutState {
    container(
        Layout::Vertical,
        vec![
            leaf("/a"),
            container(Layout::Horizontal, vec![leaf("/b"), leaf("/c")]),
            container(Layout::Horizontal, vec![leaf("/d")]),
        ],
    )
}

fn session(buffers: &[(&str, Option<Pos>)], layout: Option<LayoutState>) -> Session {
    Session {
        version: 1,
        workspace: p("/w"),
        buffers: buffers
            .iter()
            .map(|(path, cursor)| BufferState { path: p(path), cursor: *cursor })
            .collect(),
        layout,
        focused_view: 0,
        sidebar: None,
    }
}

#[test]
fn what_is_gone_is_pruned() {
    let mut s = session(&[("/a", None), ("/gone", None), ("/c", None)], Some(nested()));
    s.prune_missing(&files(&["/a", "/c"]));
    let paths: Vec<&str> = s.buffers.iter().map(|b| b.path.text.as_str()).collect();
    assert_eq!(paths, ["/a", "/c"]);
    assert_eq!(shape(s.layout.as_ref().unwrap()), "v(/a h(/c))");

    s.prune_missing(&files(&[]));
    assert!(s.buffers.is_empty());
    assert!(s.layout.is_none());
    s.prune_missing(&files(&[]));
    assert!(s.layout.is_none());
}

fn pruned_focus(layout: LayoutState, focused: usize, left: &[&str]) -> (String, usize) {
    let mut s = session(&[], Some(layout));
    s.focused_view = focused;
    s.prune_missing(&files(left));
    (s.layout.as_ref().map(shape).unwrap_or_default(), s.focused_view)
}

#[test]
fn the_focused_view_stays_focused_when_others_are_pruned() {
    let three = || container(Layout::Vertical, vec![leaf("/gone"), leaf("/b"), leaf("/c")]);
    assert_eq!(pruned_focus(three(), 1, &["/b", "/c"]), ("v(/b /c)".to_string(), 0));
    assert_eq!(pruned_focus(three(), 2, &["/b", "/c"]), ("v(/b /c)".to_string(), 1));
    // views behind the focused one do not matter
    assert_eq!(pruned_focus(three(), 1, &["/gone", "/b"]), ("v(/gone /b)".to_string(), 1));
    // if it is gone itself, the next one is focused, or there is none
    assert_eq!(pruned_focus(three(), 0, &["/b", "/c"]), ("v(/b /c)".to_string(), 0));
    assert_eq!(pruned_focus(three(), 1, &["/gone", "/c"]), ("v(/gone /c)".to_string(), 1));
    assert_eq!(pruned_focus(three(), 2, &["/gone", "/b"]), ("v(/gone /b)".to_string(), 2));
    assert_eq!(pruned_focus(three(), 2, &[]), (String::new(), 0));
    // an index that no view has stays
    assert_eq!(pruned_focus(three(), 3, &["/b"]), ("v(/b)".to_string(), 3));
    // views are counted across containers
    assert_eq!(pruned_focus(nested(), 3, &["/b", "/d"]), ("v(h(/b) h(/d))".to_string(), 1));
}

#[test]
fn the_focused_view_is_found_after_loading() {
    let layout = container(Layout::Vertical, vec![leaf("/gone"), leaf("/b"), leaf("/c")]);
    let mut read = session(&[], Some(layout));
    read.focused_view = 1;
    let config = SessionConfig { name: None, dir: p("/s") };
    let m = SessionManager::new(&config, p("/w"), &vec![], 0);
    let loaded = m.load(Some(read), &files(&["/b", "/c"])).unwrap();
    let (_, log) = run(&loaded, &[], &[]);
    assert_eq!(
        log,
        [
            "new",
            "open /c in 1",
            "vsplit 1 for 100",
            "open /b in 1",
            "show 101 in 1",
            "open /c in 2",
            "show 100 in 2",
            "apply 1 0 None",
            "apply 2 0 None",
            "focus 1",
        ]
    );
}

#[test]
fn a_session_is_loaded_without_what_is_gone() {
    let config = SessionConfig { name: None, dir: p("/s") };
    let m = SessionManager::new(&config, p("a"), &vec![], 0);
    assert!(m.load(None, &files(&[])).is_none());
    let empty = container(Layout::Vertical, vec![]);
    let read = session(&[("/a", None)], Some(container(Layout::Vertical, vec![leaf("/a"), empty])));
    let loaded = m.load(Some(read), &files(&["/a"])).unwrap();
    assert_eq!(loaded.buffers.len(), 1);
    assert_eq!(shape(loaded.layout.as_ref().unwrap()), "v(/a)");
    assert!(run(&loaded, &[], &[]).0);
}

#[test]
fn a_directory_is_no_file() {
    let disk = Disk { known: vec![(p("/a"), FileKind::Dir), (p("/b"), FileKind::Other)] };
    assert!(prune_layout(leaf("/a"), &disk).is_none());
    assert!(prune_layout(leaf("/b"), &disk).is_none());
    let all = files(&["/a", "/b", "/c", "/d"]);
    assert_eq!(shape(&prune_layout(nested(), &all).unwrap()), "v(/a h(/b /c) h(/d))");
}

// ── restoring ────────────────────────────────────────────────────────────

/// Answers calls: views are numbered from 1, documents from 100 in the order
/// in which they are opened; what is in `broken` cannot be opened.
fn run(s: &Session, broken: &[&str], find: &[(&str, Vec<u64>)]) -> (bool, Vec<String>) {
    let mut replies: Vec<Reply> = vec![];
    let mut log: Vec<String> = vec![];
    let mut views = 0;
    let mut documents: Vec<String> = vec![];
    loop {
        let call = match restore(s, &replies) {
            Ok(any) => return (any, log),
            Err(call) => call,
        };
        let mut reply = Reply { id: None, views: vec![] };
        let line = match call {
            Call::NewFile => {
                views += 1;
                reply.id = Some(views);
                "new".to_string()
            }
            Call::Open { view, path } => {
                if !broken.contains(&path.text.as_str()) {
                    let i = match documents.iter().position(|d| *d == path.text) {
                        Some(i) => i,
                        None => {
                            documents.push(path.text.clone());
                            documents.len() - 1
                        }
                    };
                    reply.id = Some(100 + i as u64);
                }
                format!("open {} in {view}", path.text)
            }
            Call::Split { view, document, layout } => {
                views += 1;
                reply.id = Some(views);
                let how = if layout == Layout::Vertical { "v" } else { "h" };
                format!("{how}split {view} for {document}")
            }
            Call::Show { view, document } => {
                reply.id = Some(0);
                format!("show {document} in {view}")
            }
            Call::Apply { view, update } => {
                format!("apply {view} {} {:?}", update.primary, update.anchor)
            }
            Call::Find { path } => {
                if let Some(found) = find.iter().find(|f| f.0 == path.text) {
                    reply.id = Some(7);
                    reply.views = found.1.clone();
                }
                format!("find {}", path.text)
            }
            Call::SetCursor { document, view, cursor } => {
                format!("cursor {document} {view} {}:{}", cursor.row, cursor.col)
            }
            Call::Focus { view } => format!("focus {view}"),
        };
        log.push(line);
        replies.push(reply);
        assert!(replies.len() < 100);
    }
}

#[test]
fn a_layout_is_rebuilt() {
    let mut s = session(&[("/a", None)], Some(nested()));
    s.focused_view = 2;
    let (any, log) = run(&s, &[], &[]);
    assert!(any);
    assert_eq!(
        log,
        [
            "new",
            "open /a in 1",
            // all siblings are made before any of them is filled in
            "open /b in 1",
            "vsplit 1 for 101",
            "open /d in 2",
            "vsplit 2 for 102",
            "open /a in 1",
            "show 100 in 1",
            "open /c in 2",
            "hsplit 2 for 103",
            "open /b in 2",
            "show 101 in 2",
            "open /c in 4",
            "show 103 in 4",
            "open /d in 3",
            "show 102 in 3",
            "apply 1 0 None",
            "apply 2 0 None",
            "apply 4 0 None",
            "apply 3 0 None",
            "focus 4",
        ]
    );
}

#[test]
fn what_was_saved_comes_back() {
    let docs = vec![document(Some("/a"), None), document(Some("/b"), None)];
    let splits = Some(row(vec![SplitTree::View, SplitTree::View, SplitTree::View]));
    let views = vec![view(Some("/a"), false), view(None, false), view(Some("/b"), true)];
    let saved = snapshot(&p("/w"), &docs, &splits, &views, &None);
    let config = SessionConfig { name: None, dir: p("/s") };
    let m = SessionManager::new(&config, p("/w"), &vec![], 0);
    let loaded = m.load(saved, &files(&["/a", "/b"])).unwrap();
    let (any, log) = run(&loaded, &[], &[]);
    assert!(any);
    assert_eq!(
        log,
        [
            "new",
            "open /a in 1",
            "open /b in 1",
            "open /b in 1",
            "vsplit 1 for 101",
            "open /a in 1",
            "show 100 in 1",
            "open /b in 2",
            "show 101 in 2",
            "apply 1 0 Some(Pos { row: 5, col: 0 })",
            "apply 2 0 Some(Pos { row: 5, col: 0 })",
            "focus 2",
        ]
    );
}

#[test]
fn a_document_that_cannot_be_opened_is_left_out() {
    let mut s = session(&[], Some(nested()));
    s.focused_view = 9;
    let (any, log) = run(&s, &["/b", "/a"], &[]);
    assert!(any);
    // nothing is split off for the container that starts with /b
    assert_eq!(
        log,
        [
            "new",
            "open /b in 1",
            "open /d in 1",
            "vsplit 1 for 100",
            "open /a in 1",
            "open /d in 2",
            "show 100 in 2",
            "apply 2 0 None",
            "focus 2",
        ]
    );
    let (any, log) = run(&s, &["/a", "/b", "/c", "/d"], &[]);
    assert!(!any);
    assert_eq!(log.last().unwrap(), "open /a in 1");
}

#[test]
fn the_focused_view_is_found_among_those_that_could_be_opened() {
    let three = || container(Layout::Vertical, vec![leaf("/a"), leaf("/b"), leaf("/c")]);
    let focus = |focused: usize, broken: &[&str]| {
        let mut s = session(&[], Some(three()));
        s.focused_view = focused;
        run(&s, broken, &[]).1.pop().unwrap()
    };
    // /a, /b and /c are restored in the views 1, 2 and 3
    assert_eq!(focus(0, &[]), "focus 1");
    assert_eq!(focus(1, &[]), "focus 2");
    assert_eq!(focus(2, &[]), "focus 3");
    assert_eq!(focus(1, &["/a"]), "focus 2");
    assert_eq!(focus(2, &["/a"]), "focus 3");
    // without /b, /c is in the second view
    assert_eq!(focus(2, &["/b"]), "focus 2");
    assert_eq!(focus(0, &["/b"]), "focus 1");
    // what cannot be opened cannot be focused: what took its place is, or the
    // last view
    assert_eq!(focus(0, &["/a"]), "focus 2");
    assert_eq!(focus(1, &["/b"]), "focus 2");
    assert_eq!(focus(2, &["/c"]), "focus 2");
    assert_eq!(focus(1, &["/a", "/b"]), "focus 2");
}

#[test]
fn a_whole_container_that_cannot_be_opened_counts() {
    // the leaves are /a, /b, /c and /d; the container of /b and /c has no view
    let mut s = session(&[], Some(nested()));
    s.focused_view = 3;
    let (_, log) = run(&s, &["/b"], &[]);
    assert!(log.contains(&"show 100 in 2".to_string()));
    assert_eq!(log.last().unwrap(), "focus 2");
}

#[test]
fn cursors_of_buffers_that_no_view_shows() {
    let s = session(
        &[
            ("/a", Some(pos(1, 2))),
            ("/b", Some(pos(3, 4))),
            ("/c", None),
            ("/d", Some(pos(5, 6))),
            ("/e", Some(pos(7, 8))),
        ],
        Some(leaf("/a")),
    );
    let find = [("/a", vec![8, 1]), ("/b", vec![8, 9]), ("/e", vec![])];
    let (any, log) = run(&s, &[], &find);
    assert!(any);
    assert_eq!(
        log[8..],
        ["apply 1 0 None", "find /a", "find /b", "cursor 7 8 3:4", "find /d", "find /e", "focus 1"]
    );
}

#[test]
fn nothing_to_restore() {
    assert_eq!(run(&session(&[], None), &[], &[]), (false, vec![]));
    let (any, log) = run(&session(&[("/a", None)], None), &[], &[]);
    assert!(!any);
    assert_eq!(log, ["new", "open /a in 1"]);
}

#[test]
fn the_primary_range_is_one_of_those_there_are() {
    let mut s = session(&[], Some(leaf("/a")));
    if let Some(LayoutState::View(v)) = &mut s.layout {
        v.selections = vec![RangeState { anchor: pos(0, 0), head: pos(0, 1) }; 3];
        v.primary = 1;
        v.scroll_anchor = Some(pos(4, 0));
    }
    let replies: Vec<Reply> =
        (0..3).map(|_| Reply { id: Some(1), views: vec![] }).collect();
    match restore(&s, &replies).unwrap_err() {
        Call::Apply { view, update } => {
            assert_eq!(view, 1);
            assert_eq!(update.primary, 1);
            assert_eq!(update.ranges.len(), 3);
            assert_eq!(update.anchor, Some(pos(4, 0)));
            assert_eq!((update.vertical_offset, update.horizontal_offset), (1, 2));
        }
        other => panic!("{:?}", other),
    }
}

#[test]
fn positions_are_converted() {
    let position = Position { row: 3, col: 5 };
    assert_eq!(Pos::from(position), pos(3, 5));
    assert_eq!(Position::from(pos(3, 5)), position);
}

use helix_workspace::entry::{DirItem, FileEntry, GitStatus, GitStatusMap, Listings};
use helix_workspace::file_tree::FileTree;
use helix_workspace::navigate::{ChangeKind, FileChange};
use helix_workspace::path::PathBuf;
use helix_workspace::path_set::PathSet;

fn make_entry(path: &str, is_dir: bool, depth: usize) -> FileEntry {
    FileEntry::new(PathBuf::from(path), is_dir, depth)
}

fn expanded(path: &str, depth: usize) -> FileEntry {
    let mut e = make_entry(path, true, depth);
    e.expanded = true;
    e
}

fn make_tree(root: &str, entries: Vec<FileEntry>) -> FileTree {
    FileTree {
        root: PathBuf::from(root),
        entries,
        selected: 0,
        scroll: 0,
        filter_mode: false,
        filter_query: String::new(),
        show_git_status: false,
        git_status: GitStatusMap::new(),
        max_width_percent: 35,
        min_width: 25,
        cached_height: 20,
        closed: false,
        marked: PathSet::new(),
        anchor: None,
    }
}

fn item(path: &str, is_dir: bool) -> DirItem {
    DirItem { path: PathBuf::from(path), is_dir }
}

fn nothing() -> Listings {
    Listings { dirs: vec![] }
}

fn listing(dirs: Vec<(&str, Vec<DirItem>)>) -> Listings {
    Listings {
        dirs: dirs.into_iter().map(|(dir, items)| (PathBuf::from(dir), items)).collect(),
    }
}

fn names(tree: &FileTree) -> Vec<&str> {
    tree.entries.iter().map(|e| e.name.as_str()).collect()
}

// ── compute_width ────────────────────────────────────────────────────────

#[test]
fn compute_width_falls_back_to_min_width_when_empty() {
    let tree = make_tree("/root", vec![]);
    let w = tree.compute_width(200);
    assert_eq!(w, 25); // min_width
}

#[test]
fn compute_width_is_based_on_longest_entry_name() {
    let tree = make_tree(
        "/root",
        vec![
            make_entry("/root/a.rs", false, 0),
            make_entry("/root/very_long_name.txt", false, 0),
        ],
    );
    let w = tree.compute_width(200);
    assert_eq!(w, 25);
}

#[test]
fn compute_width_accounts_for_indentation_and_icon() {
    let tree = make_tree(
        "/root",
        vec![
            make_entry("/root/dir", true, 0),
            make_entry("/root/dir/nested_file.rs", false, 2),
            make_entry("/root/readme.md", false, 0),
        ],
    );
    let w = tree.compute_width(200);
    assert_eq!(w, 25);
}

#[test]
fn compute_width_respects_max_width_percent() {
    let tree = make_tree("/root", vec![make_entry("/root/x", false, 0)]);
    let w = tree.compute_width(100);
    assert!((25..=35).contains(&w));
}

#[test]
fn compute_width_accounts_for_git_status_width() {
    let mut e = make_entry("/root/modified.rs", false, 0);
    e.git_status = Some(GitStatus::Modified);
    let mut tree = make_tree("/root", vec![e]);
    tree.show_git_status = true;
    let w = tree.compute_width(200);
    assert_eq!(w, 25);
}

#[test]
fn compute_width_adds_up_what_a_line_holds() {
    let mut e = make_entry("/root/d/modified_file_name_here.rs", false, 2);
    e.git_status = Some(GitStatus::Modified);
    let mut tree = make_tree("/root", vec![e]);
    // indentation 4, icon 1, name 26, status 2, padding 2
    assert_eq!(tree.compute_width(200), 35);
    // a mark takes two columns more
    tree.marked.insert(PathBuf::from("/root/d/modified_file_name_here.rs"));
    assert_eq!(tree.compute_width(200), 37);
    // a directory has a wider icon
    let tree = make_tree("/root", vec![make_entry("/root/a_directory_with_a_long_name", true, 0)]);
    assert_eq!(tree.compute_width(200), 2 + 28 + 2);
}

#[test]
fn compute_width_counts_columns_not_characters() {
    // fifteen wide characters take up thirty columns
    let tree = make_tree("/root", vec![make_entry("/root/漢字漢字漢字漢字漢字漢字漢字漢", false, 0)]);
    assert_eq!(tree.compute_width(200), 1 + 30 + 2);
}

#[test]
fn compute_width_stays_within_its_bounds() {
    let name = format!("/root/{}", "n".repeat(100));
    let tree = make_tree("/root", vec![make_entry(&name, false, 0)]);
    assert_eq!(tree.compute_width(200), 70);
    assert_eq!(tree.compute_width(40), 25);
    assert_eq!(tree.required_size((200, 50)), Some((70, 50)));
}

// ── navigation ───────────────────────────────────────────────────────────

#[test]
fn move_down_increments_selection() {
    let mut tree = make_tree(
        "/root",
        vec![
            make_entry("/root/a.txt", false, 0),
            make_entry("/root/b.txt", false, 0),
            make_entry("/root/c.txt", false, 0),
        ],
    );
    assert_eq!(tree.selected, 0);
    tree.move_down();
    assert_eq!(tree.selected, 1);
    tree.move_down();
    assert_eq!(tree.selected, 2);
}

#[test]
fn move_down_does_not_exceed_entry_count() {
    let mut tree = make_tree("/root", vec![make_entry("/root/a.txt", false, 0)]);
    tree.move_down();
    assert_eq!(tree.selected, 0);
}

#[test]
fn move_up_decrements_selection() {
    let mut tree = make_tree(
        "/root",
        vec![make_entry("/root/a.txt", false, 0), make_entry("/root/b.txt", false, 0)],
    );
    tree.selected = 1;
    tree.move_up();
    assert_eq!(tree.selected, 0);
}

#[test]
fn move_up_does_not_go_below_zero() {
    let mut tree = make_tree("/root", vec![make_entry("/root/a.txt", false, 0)]);
    tree.move_up();
    assert_eq!(tree.selected, 0);
}

#[test]
fn update_scroll_keeps_the_selection_visible() {
    let entries = (0..50).map(|i| make_entry(&format!("/root/{i}"), false, 0)).collect();
    let mut tree = make_tree("/root", entries);
    tree.cached_height = 10;
    tree.selected = 30;
    tree.update_scroll();
    assert_eq!(tree.scroll, 22);
    tree.selected = 22;
    tree.update_scroll();
    assert_eq!(tree.scroll, 22);
    tree.selected = 5;
    tree.update_scroll();
    assert_eq!(tree.scroll, 5);
}

// ── toggle_expand ────────────────────────────────────────────────────────

#[test]
fn toggle_expand_loads_children_of_directory() {
    let disk = listing(vec![(
        "/w/sub",
        vec![item("/w/sub/a.txt", false), item("/w/sub/b.txt", false)],
    )]);
    let mut tree = make_tree("/w", vec![make_entry("/w/sub", true, 0)]);

    assert_eq!(tree.entries.len(), 1);
    assert!(!tree.entries[0].expanded);

    tree.toggle_expand(0, &disk);
    assert!(tree.entries[0].expanded);
    assert_eq!(tree.entries.len(), 3); // sub + a.txt + b.txt
}

#[test]
fn toggle_expand_collapses_already_expanded_directory() {
    let disk = listing(vec![("/w/sub", vec![item("/w/sub/a.txt", false)])]);
    let mut tree = make_tree("/w", vec![make_entry("/w/sub", true, 0)]);

    // Expand
    tree.toggle_expand(0, &disk);
    assert!(tree.entries[0].expanded);
    let expanded_count = tree.entries.len();

    // Collapse
    tree.toggle_expand(0, &disk);
    assert!(!tree.entries[0].expanded);
    assert_eq!(tree.entries.len(), 1);
    assert!(expanded_count > 1);
}

#[test]
fn toggle_expand_does_nothing_for_non_directory() {
    let mut tree = make_tree("/root", vec![make_entry("/root/a.txt", false, 0)]);
    tree.toggle_expand(0, &nothing());
    // Should still be not expanded (it's a file, not a dir)
    assert!(!tree.entries[0].expanded);
}

#[test]
fn toggle_expand_does_nothing_for_out_of_bounds() {
    let mut tree = make_tree("/root", vec![]);
    // Should not panic
    tree.toggle_expand(99, &nothing());
    assert!(tree.entries.is_empty());
}

#[test]
fn toggle_expand_collapses_what_lies_below_only() {
    let mut tree = make_tree(
        "/w",
        vec![
            expanded("/w/a", 0),
            expanded("/w/a/b", 1),
            make_entry("/w/a/b/c.txt", false, 2),
            make_entry("/w/a/d.txt", false, 1),
            make_entry("/w/e.txt", false, 0),
        ],
    );
    tree.toggle_expand(1, &nothing());
    assert_eq!(names(&tree), ["a", "b", "d.txt", "e.txt"]);
    tree.toggle_expand(0, &nothing());
    assert_eq!(names(&tree), ["a", "e.txt"]);
}

#[test]
fn toggle_expand_of_an_unreadable_directory_shows_nothing() {
    let mut tree = make_tree("/w", vec![make_entry("/w/sub", true, 0)]);
    tree.toggle_expand(0, &nothing());
    assert!(tree.entries[0].expanded);
    assert_eq!(tree.entries.len(), 1);
}

#[test]
fn children_take_the_status_of_their_files() {
    let disk = listing(vec![(
        "/w/sub",
        vec![item("/w/sub/a.txt", false), item("/w/sub/b.txt", false)],
    )]);
    let mut tree = make_tree("/w", vec![make_entry("/w/sub", true, 0)]);
    tree.git_status.insert(PathBuf::from("/w/sub/b.txt"), GitStatus::Conflict);
    tree.toggle_expand(0, &disk);
    assert_eq!(tree.entries[1].git_status, None);
    assert_eq!(tree.entries[2].git_status, Some(GitStatus::Conflict));
    assert_eq!(tree.entries[2].depth, 1);
}

// ── open_selected ────────────────────────────────────────────────────────

#[test]
fn open_selected_directory_returns_false() {
    let disk = listing(vec![("/w/sub", vec![])]);
    let mut tree = make_tree("/w", vec![make_entry("/w/sub", true, 0)]);
    // open_selected for a directory just toggles expand
    assert!(tree.entries[0].is_dir);
    assert_eq!(tree.open_selected(&disk), None);
    assert!(tree.entries[0].expanded);
}

#[test]
fn open_selected_file_returns_true() {
    let mut tree = make_tree(
        "/root",
        vec![
            make_entry("/root/sub", true, 0),
            make_entry("/root/sub/readme.md", false, 1),
        ],
    );
    assert!(tree.entries[0].is_dir);
    assert!(!tree.entries[1].is_dir);
    tree.selected = 1;
    assert_eq!(tree.open_selected(&nothing()), Some(PathBuf::from("/root/sub/readme.md")));
}

// ── FileTree::new ────────────────────────────────────────────────────────

#[test]
fn new_file_tree_loads_root_entries() {
    let disk = listing(vec![("/w", vec![item("/w/README.md", false), item("/w/src", true)])]);
    let mut tree = make_tree("/w", vec![]);
    tree.load_directory(&PathBuf::from("/w"), 0, &disk);

    // Dirs come first alphabetically, then files
    assert_eq!(tree.entries.len(), 2);
    assert_eq!(tree.entries[0].name, "src");
    assert!(tree.entries[0].is_dir);
    assert_eq!(tree.entries[1].name, "README.md");
    assert!(!tree.entries[1].is_dir);
}

#[test]
fn new_starts_with_the_defaults() {
    let disk = listing(vec![("/w", vec![item("/w/a.txt", false)])]);
    let changes = vec![
        Some(FileChange { kind: ChangeKind::Untracked, path: PathBuf::from("/w/u") }),
        Some(FileChange { kind: ChangeKind::Modified, path: PathBuf::from("/w/m") }),
        Some(FileChange { kind: ChangeKind::Deleted, path: PathBuf::from("/w/d") }),
        Some(FileChange { kind: ChangeKind::Renamed, path: PathBuf::from("/w/r") }),
        Some(FileChange { kind: ChangeKind::Conflict, path: PathBuf::from("/w/c") }),
        None,
        Some(FileChange { kind: ChangeKind::Modified, path: PathBuf::from("/w/late") }),
    ];
    let tree = FileTree::new(PathBuf::from("/w"), &disk, &changes);
    assert_eq!(names(&tree), ["a.txt"]);
    assert!(!tree.closed);
    assert!(tree.show_git_status);
    assert_eq!((tree.max_width_percent, tree.min_width, tree.cached_height), (35, 25, 20));
    let status = |path: &str| tree.git_status.get(&PathBuf::from(path));
    assert_eq!(status("/w/u"), Some(GitStatus::Untracked));
    assert_eq!(status("/w/m"), Some(GitStatus::Modified));
    assert_eq!(status("/w/d"), Some(GitStatus::Deleted));
    assert_eq!(status("/w/r"), Some(GitStatus::Renamed));
    assert_eq!(status("/w/c"), Some(GitStatus::Conflict));
    // nothing is taken over after a report that failed
    assert_eq!(status("/w/late"), None);
}

#[test]
fn directories_come_first_and_names_are_compared_without_case() {
    let disk = listing(vec![(
        "/w",
        vec![
            item("/w/b.txt", false),
            item("/w/Zoo", true),
            item("/w/A.txt", false),
            item("/w/apple", true),
            item("/w/ÉTÉ.txt", false),
            item("/w/été2.txt", false),
            item("/w/C.txt", false),
        ],
    )]);
    let mut tree = make_tree("/w", vec![]);
    tree.load_directory(&PathBuf::from("/w"), 0, &disk);
    assert_eq!(
        names(&tree),
        ["apple", "Zoo", "A.txt", "b.txt", "C.txt", "ÉTÉ.txt", "été2.txt"]
    );
}

#[test]
fn names_that_differ_in_case_alone_keep_their_order() {
    let disk = listing(vec![(
        "/w",
        vec![item("/w/readme", false), item("/w/README", false), item("/w/a", false)],
    )]);
    let mut tree = make_tree("/w", vec![]);
    tree.load_directory(&PathBuf::from("/w"), 0, &disk);
    assert_eq!(names(&tree), ["a", "readme", "README"]);
}

// ── closed flag ──────────────────────────────────────────────────────────

#[test]
fn file_tree_starts_not_closed() {
    let tree = make_tree("/root", vec![]);
    assert!(!tree.closed);
}

#[test]
fn file_tree_can_be_marked_closed() {
    let mut tree = make_tree("/root", vec![]);
    tree.closed = true;
    assert!(tree.closed);
}

// ── FileEntry ────────────────────────────────────────────────────────────

#[test]
fn file_entry_new_extracts_name_from_path() {
    let entry = FileEntry::new(PathBuf::from("/home/user/project/main.rs"), false, 1);
    assert_eq!(entry.name, "main.rs");
    assert!(!entry.is_dir);
    assert_eq!(entry.depth, 1);
    assert!(!entry.expanded);
    assert!(entry.git_status.is_none());
}

#[test]
fn file_entry_new_recognizes_directory() {
    let entry = FileEntry::new(PathBuf::from("/home/user/project/src"), true, 0);
    assert!(entry.is_dir);
    assert_eq!(entry.name, "src");
}

#[test]
fn file_entry_new_without_a_name() {
    assert_eq!(FileEntry::new(PathBuf::from("/"), true, 0).name, "");
    assert_eq!(FileEntry::new(PathBuf::from("/a/.."), true, 0).name, "");
}

#[test]
fn git_status_labels() {
    let labels: Vec<&str> = [
        GitStatus::Untracked,
        GitStatus::Modified,
        GitStatus::Added,
        GitStatus::Deleted,
        GitStatus::Renamed,
        GitStatus::Conflict,
    ]
    .iter()
    .map(|s| s.label())
    .collect();
    assert_eq!(labels, ["?", "M", "A", "D", "R", "C"]);
}

// ── marks ────────────────────────────────────────────────────────────────

#[test]
fn toggle_mark_marks_and_unmarks_current_entry() {
    let mut tree = make_tree("/root", vec![make_entry("/root/a.txt", false, 0)]);
    tree.toggle_mark();
    assert!(tree.marked.contains(&PathBuf::from("/root/a.txt")));
    assert_eq!(tree.anchor, Some(0));
    tree.toggle_mark();
    assert!(tree.marked.is_empty());
}

#[test]
fn mark_range_marks_everything_between_anchor_and_selection() {
    let mut tree = make_tree(
        "/root",
        vec![
            make_entry("/root/a.txt", false, 0),
            make_entry("/root/b.txt", false, 0),
            make_entry("/root/c.txt", false, 0),
            make_entry("/root/d.txt", false, 0),
        ],
    );
    tree.selected = 1;
    tree.toggle_mark();
    tree.selected = 3;
    tree.mark_range();
    assert_eq!(tree.marked.len(), 3);
    assert!(tree.marked.contains(&PathBuf::from("/root/b.txt")));
    assert!(tree.marked.contains(&PathBuf::from("/root/c.txt")));
    assert!(tree.marked.contains(&PathBuf::from("/root/d.txt")));
    assert!(!tree.marked.contains(&PathBuf::from("/root/a.txt")));
}

#[test]
fn mark_range_works_backwards() {
    let mut tree = make_tree(
        "/root",
        vec![
            make_entry("/root/a.txt", false, 0),
            make_entry("/root/b.txt", false, 0),
            make_entry("/root/c.txt", false, 0),
        ],
    );
    tree.selected = 2;
    tree.toggle_mark();
    tree.selected = 0;
    tree.mark_range();
    assert_eq!(tree.marked.len(), 3);
}

#[test]
fn clear_marks_reports_whether_anything_was_cleared() {
    let mut tree = make_tree("/root", vec![make_entry("/root/a.txt", false, 0)]);
    assert!(!tree.clear_marks());
    tree.toggle_mark();
    assert!(tree.clear_marks());
    assert!(tree.marked.is_empty());
    assert_eq!(tree.anchor, None);
}

// ── selected_paths ───────────────────────────────────────────────────────

#[test]
fn selected_paths_falls_back_to_current_entry() {
    let tree = make_tree(
        "/root",
        vec![make_entry("/root/a.txt", false, 0), make_entry("/root/b.txt", false, 0)],
    );
    assert_eq!(tree.selected_paths(), vec![PathBuf::from("/root/a.txt")]);
}

#[test]
fn selected_paths_drops_entries_inside_marked_directories() {
    let mut tree = make_tree(
        "/root",
        vec![
            make_entry("/root/dir", true, 0),
            make_entry("/root/dir/child.txt", false, 1),
            make_entry("/root/other.txt", false, 0),
        ],
    );
    tree.marked.insert(PathBuf::from("/root/dir"));
    tree.marked.insert(PathBuf::from("/root/dir/child.txt"));
    tree.marked.insert(PathBuf::from("/root/other.txt"));
    assert_eq!(
        tree.selected_paths(),
        vec![PathBuf::from("/root/dir"), PathBuf::from("/root/other.txt")]
    );
}

#[test]
fn selected_paths_compares_whole_components() {
    let mut tree = make_tree("/root", vec![]);
    tree.marked.insert(PathBuf::from("/root/dir"));
    tree.marked.insert(PathBuf::from("/root/dir2/x"));
    tree.marked.insert(PathBuf::from("/root/dir-a"));
    let paths: Vec<String> = tree.selected_paths().into_iter().map(|p| p.text).collect();
    assert_eq!(paths, ["/root/dir", "/root/dir-a", "/root/dir2/x"]);
}

#[test]
fn selected_paths_of_an_empty_tree() {
    assert!(make_tree("/root", vec![]).selected_paths().is_empty());
}

// ── go_to_parent ─────────────────────────────────────────────────────────

#[test]
fn go_to_parent_collapses_expanded_directory_in_place() {
    let mut tree = make_tree("/root", vec![expanded("/root/dir", 0)]);
    tree.go_to_parent();
    assert!(!tree.entries[0].expanded);
    assert_eq!(tree.selected, 0);
}

#[test]
fn go_to_parent_moves_to_parent_and_collapses_it() {
    let mut tree = make_tree(
        "/root",
        vec![
            expanded("/root/dir", 0),
            make_entry("/root/dir/a.txt", false, 1),
            make_entry("/root/dir/b.txt", false, 1),
            make_entry("/root/other.txt", false, 0),
        ],
    );
    tree.selected = 2;
    tree.go_to_parent();
    assert_eq!(tree.selected, 0);
    assert!(!tree.entries[0].expanded);
    assert_eq!(names(&tree), ["dir", "other.txt"]);
}

#[test]
fn go_to_parent_does_nothing_at_root_level() {
    let mut tree = make_tree("/root", vec![make_entry("/root/a.txt", false, 0)]);
    tree.go_to_parent();
    assert_eq!(tree.selected, 0);
}

// ── reveal, create_base_dir ──────────────────────────────────────────────

#[test]
fn reveal_path_expands_the_parent() {
    let disk = listing(vec![("/w/sub", vec![item("/w/sub/new.txt", false)])]);
    let mut tree = make_tree(
        "/w",
        vec![make_entry("/w/sub", true, 0), make_entry("/w/top.txt", false, 0)],
    );
    tree.reveal_path(&PathBuf::from("/w/sub/new.txt"), &disk);
    assert_eq!(names(&tree), ["sub", "new.txt", "top.txt"]);
    assert_eq!(tree.selected, 1);
    tree.reveal_path(&PathBuf::from("/w/top.txt"), &disk);
    assert_eq!(tree.selected, 2);
    tree.reveal_path(&PathBuf::from("/w/gone.txt"), &disk);
    assert_eq!(tree.selected, 2);
}

#[test]
fn create_base_dir_follows_the_selection() {
    let mut tree = make_tree(
        "/w",
        vec![make_entry("/w/sub", true, 0), make_entry("/w/top.txt", false, 0)],
    );
    assert_eq!(tree.create_base_dir(), PathBuf::from("/w/sub"));
    tree.selected = 1;
    assert_eq!(tree.create_base_dir(), PathBuf::from("/w"));
    tree.entries.clear();
    assert_eq!(tree.create_base_dir(), PathBuf::from("/w"));
}

// ── state / restore_state ────────────────────────────────────────────────

fn small_disk() -> Listings {
    listing(vec![
        ("/w", vec![item("/w/sub", true), item("/w/top.txt", false)]),
        ("/w/sub", vec![item("/w/sub/a.txt", false)]),
    ])
}

#[test]
fn state_roundtrip_restores_expansion_selection_and_scroll() {
    let disk = small_disk();
    let mut tree = make_tree("/w", vec![]);
    tree.load_directory(&PathBuf::from("/w"), 0, &disk);
    // Expand "sub" and select the file inside it.
    tree.toggle_expand(0, &disk);
    tree.selected = 1;
    tree.scroll = 1;

    let state = tree.state();
    assert_eq!(state.expanded, vec![PathBuf::from("/w/sub")]);
    assert_eq!(state.selected, Some(PathBuf::from("/w/sub/a.txt")));
    assert_eq!(state.scroll, 1);

    // Simulate a fresh tree (as after closing and reopening).
    let mut fresh = make_tree("/w", vec![]);
    fresh.load_directory(&PathBuf::from("/w"), 0, &disk);
    assert_eq!(fresh.entries.len(), 2);

    fresh.restore_state(&state, &disk);
    assert_eq!(fresh.entries.len(), 3);
    assert!(fresh.entries[0].expanded);
    assert_eq!(fresh.selected, 1);
    assert_eq!(fresh.entries[1].path, PathBuf::from("/w/sub/a.txt"));
    assert_eq!(fresh.scroll, 1);
}

#[test]
fn restore_state_expands_parents_before_their_children() {
    let disk = listing(vec![
        ("/w", vec![item("/w/a", true), item("/w/z.txt", false)]),
        ("/w/a", vec![item("/w/a/b", true)]),
        ("/w/a/b", vec![item("/w/a/b/c.txt", false)]),
    ]);
    let mut tree = FileTree::new(PathBuf::from("/w"), &disk, &vec![]);
    let mut state = tree.state();
    state.expanded = vec![PathBuf::from("/w/a/b"), PathBuf::from("/w/a"), PathBuf::from("/w/gone")];
    state.selected = Some(PathBuf::from("/w/a/b/c.txt"));
    tree.restore_state(&state, &disk);
    assert_eq!(names(&tree), ["a", "b", "c.txt", "z.txt"]);
    assert_eq!(tree.selected, 2);
}

#[test]
fn refresh_preserves_expansion_and_prunes_marks() {
    let disk = small_disk();
    let mut tree = make_tree("/w", vec![]);
    tree.load_directory(&PathBuf::from("/w"), 0, &disk);
    tree.toggle_expand(0, &disk);
    tree.marked.insert(PathBuf::from("/w/sub/a.txt"));
    tree.marked.insert(PathBuf::from("/w/gone.txt"));

    tree.refresh(&disk, &vec![]);

    assert!(tree.entries[0].expanded);
    assert_eq!(tree.entries.len(), 3);
    assert!(tree.marked.contains(&PathBuf::from("/w/sub/a.txt")));
    assert!(!tree.marked.contains(&PathBuf::from("/w/gone.txt")));
}

#[test]
fn refresh_keeps_the_selection_on_an_entry() {
    let mut tree = make_tree("/w", vec![]);
    tree.load_directory(&PathBuf::from("/w"), 0, &small_disk());
    tree.selected = 1;
    let disk = listing(vec![("/w", vec![item("/w/sub", true)])]);
    tree.refresh(&disk, &vec![]);
    assert_eq!(tree.selected, 0);
    tree.selected = 7;
    tree.refresh(&nothing(), &vec![]);
    assert!(tree.entries.is_empty());
    assert_eq!(tree.selected, 0);
}

#[test]
fn refresh_keeps_the_position_on_a_changed_disk() {
    let before = listing(vec![
        ("/w", vec![item("/w/a", true), item("/w/b", true), item("/w/z.txt", false)]),
        ("/w/a", vec![item("/w/a/x.txt", false)]),
        ("/w/b", vec![item("/w/b/c", true)]),
        ("/w/b/c", vec![item("/w/b/c/d.txt", false)]),
    ]);
    let mut tree = FileTree::new(PathBuf::from("/w"), &before, &vec![]);
    let mut state = tree.state();
    state.expanded = vec!["/w/a", "/w/b", "/w/b/c"].into_iter().map(PathBuf::from).collect();
    state.selected = Some(PathBuf::from("/w/b/c/d.txt"));
    tree.restore_state(&state, &before);
    assert_eq!(names(&tree), ["a", "x.txt", "b", "c", "d.txt", "z.txt"]);
    assert_eq!(tree.selected, 4);

    // /w/a is gone, and there is a new directory and a new file
    let after = listing(vec![
        ("/w", vec![item("/w/z.txt", false), item("/w/0", true), item("/w/b", true)]),
        ("/w/0", vec![item("/w/0/y.txt", false)]),
        ("/w/b", vec![item("/w/b/a.txt", false), item("/w/b/c", true)]),
        ("/w/b/c", vec![item("/w/b/c/d.txt", false)]),
    ]);
    tree.refresh(&after, &vec![]);
    assert_eq!(names(&tree), ["0", "b", "c", "d.txt", "a.txt", "z.txt"]);
    let expanded: Vec<bool> = tree.entries.iter().map(|e| e.expanded).collect();
    assert_eq!(expanded, [false, true, true, false, false, false]);
    assert_eq!(tree.selected, 3);
}

use helix_workspace::disk::{Disk, FileKind};
use helix_workspace::entry::{DirItem, FileEntry, GitStatus, Listings};
use helix_workspace::events::{CursorKind, EventResult};
use helix_workspace::file_tree::FileTree;
use helix_workspace::key::{
    Event, FileTreeKeys, FileTreeOpenBehavior, KeyCode, KeyEvent, KeyModifiers,
};
use helix_workspace::path::PathBuf;
use helix_workspace::prompt::{
    create_error, created_message, delete_message, open_error, ConfirmBox, ConfirmReply, DeleteError,
};
use helix_workspace::render::{Draw, Rect};

fn p(s: &str) -> PathBuf {
    PathBuf::from(s)
}

fn key(c: char) -> KeyEvent {
    KeyEvent::plain(KeyCode::Char(c))
}

fn keys() -> FileTreeKeys {
    FileTreeKeys {
        quit: key('q'),
        move_down: key('j'),
        move_up: key('k'),
        open: key('o'),
        expand: key('l'),
        collapse: key('h'),
        parent: key('p'),
        select: key('v'),
        select_extend: key('V'),
        delete: key('d'),
        create_file: key('a'),
        create_dir: key('A'),
        refresh: key('R'),
        filter: key('/'),
        goto_top: key('g'),
        goto_bottom: key('G'),
    }
}

fn disk() -> Listings {
    let item = |path: &str, is_dir: bool| DirItem { path: p(path), is_dir };
    Listings {
        dirs: vec![
            (
                p("/w"),
                vec![item("/w/b.txt", false), item("/w/src", true), item("/w/a.txt", false)],
            ),
            (p("/w/src"), vec![item("/w/src/main.rs", false)]),
        ],
    }
}

fn tree() -> FileTree {
    FileTree::new(p("/w"), &disk(), &vec![])
}

fn names(tree: &FileTree) -> Vec<&str> {
    tree.entries.iter().map(|e| e.name.as_str()).collect()
}

fn press_code(tree: &mut FileTree, code: KeyCode) -> EventResult {
    let event = Event::Key(KeyEvent::plain(code));
    tree.handle_event(&event, &keys(), FileTreeOpenBehavior::Auto, &disk())
}

fn press(tree: &mut FileTree, text: &str) -> EventResult {
    let mut last = EventResult::Ignored;
    for c in text.chars() {
        last = press_code(tree, KeyCode::Char(c));
    }
    last
}

fn consumed(r: EventResult) -> bool {
    matches!(r, EventResult::Consumed)
}

// ── keys ─────────────────────────────────────────────────────────────────

#[test]
fn position_is_remembered_when_the_tree_is_reopened() {
    let mut open = tree();
    assert!(consumed(press(&mut open, "jj")));
    assert!(consumed(press(&mut open, "q")));
    assert!(open.closed);
    let state = open.state();
    let mut again = tree();
    again.restore_state(&state, &disk());
    assert_eq!(again.selected, 2);
    assert!(!again.closed);
}

#[test]
fn select_and_select_extend() {
    let mut t = tree();
    press(&mut t, "v");
    assert_eq!(t.marked.len(), 1);
    press(&mut t, "jjV");
    assert_eq!(t.marked.len(), 3);
    // Escape clears the marks first, the tree stays open.
    press_code(&mut t, KeyCode::Esc);
    assert!(!t.closed);
    assert!(t.marked.is_empty());
    // A second escape closes the tree.
    press_code(&mut t, KeyCode::Esc);
    assert!(t.closed);
}

#[test]
fn opening_a_file_closes_the_tree_if_it_is_set_up_to() {
    let mut t = tree();
    press(&mut t, "G");
    let r = press_code(&mut t, KeyCode::Enter);
    assert!(matches!(r, EventResult::OpenFile(path) if path.text == "/w/b.txt"));
    assert!(t.closed);

    let mut t = tree();
    press(&mut t, "G");
    let enter = Event::Key(KeyEvent::plain(KeyCode::Enter));
    let r = t.handle_event(&enter, &keys(), FileTreeOpenBehavior::Manual, &disk());
    assert!(matches!(r, EventResult::OpenFile(_)));
    assert!(!t.closed);
}

#[test]
fn directories_are_expanded_and_collapsed() {
    let mut t = tree();
    assert!(consumed(press(&mut t, "l")));
    assert_eq!(names(&t), ["src", "main.rs", "a.txt", "b.txt"]);
    assert!(consumed(press(&mut t, "h")));
    assert_eq!(names(&t), ["src", "a.txt", "b.txt"]);
    // collapse does nothing to what is not expanded
    assert!(consumed(press_code(&mut t, KeyCode::Left)));
    assert_eq!(t.entries.len(), 3);
    press_code(&mut t, KeyCode::Right);
    press(&mut t, "j");
    press(&mut t, "p");
    assert_eq!(t.selected, 0);
    assert_eq!(t.entries.len(), 3);
}

#[test]
fn moving_to_the_ends() {
    let mut t = tree();
    press(&mut t, "G");
    assert_eq!(t.selected, 2);
    press_code(&mut t, KeyCode::Up);
    assert_eq!(t.selected, 1);
    press_code(&mut t, KeyCode::Down);
    assert_eq!(t.selected, 2);
    press(&mut t, "g");
    assert_eq!((t.selected, t.scroll), (0, 0));
    press(&mut t, "k");
    assert_eq!(t.selected, 0);
}

#[test]
fn keys_that_leave_something_to_do() {
    let mut t = tree();
    assert!(matches!(press(&mut t, "d"), EventResult::ConfirmDelete));
    assert!(matches!(press(&mut t, "a"), EventResult::CreatePrompt { is_dir: false }));
    assert!(matches!(press(&mut t, "A"), EventResult::CreatePrompt { is_dir: true }));
    assert!(matches!(press(&mut t, "R"), EventResult::Refresh));
    assert!(matches!(press(&mut t, "x"), EventResult::Ignored));
    let other = t.handle_event(&Event::Other, &keys(), FileTreeOpenBehavior::Auto, &disk());
    assert!(matches!(other, EventResult::Ignored));
}

#[test]
fn modifiers_count() {
    let mut t = tree();
    let control =
        KeyModifiers { shift: false, control: true, alt: false, logo: false };
    let c = Event::Key(KeyEvent { code: KeyCode::Char('c'), modifiers: control });
    assert!(consumed(t.handle_event(&c, &keys(), FileTreeOpenBehavior::Auto, &disk())));
    assert!(t.closed);

    // shift is already in the case of the character
    let mut t = tree();
    let shift = KeyModifiers { shift: true, control: false, alt: false, logo: false };
    let g = Event::Key(KeyEvent { code: KeyCode::Char('G'), modifiers: shift });
    assert!(consumed(t.handle_event(&g, &keys(), FileTreeOpenBehavior::Auto, &disk())));
    assert_eq!(t.selected, 2);

    let alt = KeyModifiers { shift: false, control: false, alt: true, logo: false };
    let q = Event::Key(KeyEvent { code: KeyCode::Char('q'), modifiers: alt });
    let r = t.handle_event(&q, &keys(), FileTreeOpenBehavior::Auto, &disk());
    assert!(matches!(r, EventResult::Ignored));
}

#[test]
fn typing_a_filter() {
    let mut t = tree();
    assert_eq!(t.cursor(), CursorKind::Hidden);
    press(&mut t, "/");
    assert!(t.filter_mode);
    assert_eq!(t.cursor(), CursorKind::Block);
    assert!(consumed(press(&mut t, "qx")));
    assert_eq!(t.filter_query, "qx");
    assert!(!t.closed);
    press_code(&mut t, KeyCode::Backspace);
    assert_eq!(t.filter_query, "q");
    assert!(matches!(press_code(&mut t, KeyCode::Down), EventResult::Ignored));
    press_code(&mut t, KeyCode::Enter);
    assert!(!t.filter_mode);
    assert_eq!(t.filter_query, "q");
    press(&mut t, "/z");
    press_code(&mut t, KeyCode::Esc);
    assert!(!t.filter_mode);
    assert_eq!(t.filter_query, "");
    assert_eq!(t.id(), Some("file-tree"));
}

// ── creating ─────────────────────────────────────────────────────────────

#[test]
fn creating_in_the_selected_directory() {
    let mut t = tree();
    let prompt = t.create_prompt(true, FileTreeOpenBehavior::Auto);
    assert_eq!(prompt.title, "New directory in src: ");
    let c = prompt.answer(true, "  lib  ").unwrap();
    assert_eq!((c.path, c.directory, c.file), (p("/w/src/lib"), Some(p("/w/src/lib")), false));
    assert_eq!(prompt.follow_up(), (false, false));

    t.selected = 1;
    let prompt = t.create_prompt(false, FileTreeOpenBehavior::Auto);
    assert_eq!(prompt.title, "New file in .: ");
    let c = prompt.answer(true, "x/y.rs").unwrap();
    assert_eq!((c.path, c.directory, c.file), (p("/w/x/y.rs"), Some(p("/w/x")), true));
    assert_eq!(prompt.follow_up(), (true, true));
    assert!(prompt.answer(true, " \t ").is_none());
    assert!(prompt.answer(false, "x").is_none());
    let prompt = t.create_prompt(false, FileTreeOpenBehavior::Manual);
    assert_eq!(prompt.follow_up(), (false, true));
}

#[test]
fn what_was_created_is_shown() {
    let mut t = tree();
    let mut after = disk();
    after.dirs[1].1.push(DirItem { path: p("/w/src/lib.rs"), is_dir: false });
    t.show_created(&p("/w/src/lib.rs"), &after, &vec![]);
    assert_eq!(names(&t), ["src", "lib.rs", "main.rs", "a.txt", "b.txt"]);
    assert_eq!(t.selected, 1);
    assert_eq!(created_message(&p("/w/x")), "Created: /w/x");
    assert_eq!(create_error(&p("/w/x"), "denied"), "Failed to create /w/x: denied");
    assert_eq!(open_error(&p("/w/x"), "denied"), "Failed to open /w/x: denied");
}

// ── deleting ─────────────────────────────────────────────────────────────

#[test]
fn asking_before_deleting() {
    let mut t = tree();
    let found = Disk { known: vec![(p("/w/src"), FileKind::Dir), (p("/w/a.txt"), FileKind::File)] };
    let b = t.confirm_delete(&found).unwrap();
    assert_eq!(b.title, "Delete this item?");
    assert_eq!(b.lines, ["src/"]);
    assert_eq!(b.on_confirm, Some(vec![p("/w/src")]));
    press(&mut t, "vjvj");
    let b = t.confirm_delete(&found).unwrap();
    assert_eq!(b.title, "Delete these 2 items?");
    assert_eq!(b.lines, ["a.txt", "src/"]);
    t.marked.clear();
    t.marked.insert(p("/elsewhere/x"));
    assert_eq!(t.confirm_delete(&found).unwrap().lines, ["/elsewhere/x"]);
    t.marked.clear();
    t.entries.clear();
    assert!(t.confirm_delete(&found).is_none());
}

#[test]
fn the_box_waits_for_an_answer() {
    let mut b = ConfirmBox::new("t".to_string(), vec![], vec![p("/x")]);
    let press = |b: &mut ConfirmBox, code| b.handle_event(&Event::Key(KeyEvent::plain(code)));
    assert!(matches!(press(&mut b, KeyCode::Char('x')), ConfirmReply::Swallowed));
    assert!(matches!(b.handle_event(&Event::Other), ConfirmReply::Swallowed));
    for code in [KeyCode::Char('n'), KeyCode::Char('q'), KeyCode::Esc] {
        assert!(matches!(press(&mut b, code), ConfirmReply::Cancelled));
    }
    let r = press(&mut b, KeyCode::Char('y'));
    assert!(matches!(r, ConfirmReply::Confirmed(Some(paths)) if paths == vec![p("/x")]));
    // it is done once
    assert!(matches!(press(&mut b, KeyCode::Enter), ConfirmReply::Confirmed(None)));
    assert_eq!(b.id(), Some("file-tree-confirm"));
}

#[test]
fn how_deleting_went() {
    let error = |path: &str, m: &str| DeleteError { path: p(path), message: m.to_string() };
    assert_eq!(delete_message(1, &vec![]), Ok("Deleted 1 item".to_string()));
    assert_eq!(delete_message(0, &vec![]), Ok("Deleted 0 items".to_string()));
    assert_eq!(delete_message(12, &vec![]), Ok("Deleted 12 items".to_string()));
    assert_eq!(
        delete_message(3, &vec![error("/a", "no"), error("/b", "gone")]),
        Err("Failed to delete: /a: no, /b: gone".to_string())
    );
}

#[test]
fn the_tree_after_deleting() {
    let mut t = tree();
    press(&mut t, "v");
    let mut after = disk();
    after.dirs[0].1.remove(1);
    t.show_deleted(&after, &vec![]);
    assert_eq!(names(&t), ["a.txt", "b.txt"]);
    assert!(t.marked.is_empty());
    assert_eq!(t.anchor, None);
}

// ── drawing ──────────────────────────────────────────────────────────────

fn line(d: &Draw) -> (u16, Vec<(&str, Option<&str>)>) {
    match d {
        Draw::Line { y, spans, .. } => {
            (*y, spans.iter().map(|s| (s.text.as_str(), s.style)).collect())
        }
        other => panic!("not a line: {:?}", other),
    }
}

fn written(d: &Draw) -> (u16, u16, &str, &str) {
    match d {
        Draw::Text { x, y, text, style } => (*x, *y, text.as_str(), *style),
        Draw::Clipped { x, y, text, style, .. } => (*x, *y, text.as_str(), *style),
        other => panic!("not a text: {:?}", other),
    }
}

#[test]
fn drawing_the_tree() {
    let mut t = tree();
    press(&mut t, "ljv");
    t.entries[2].git_status = Some(GitStatus::Modified);
    let area = Rect { x: 2, y: 1, width: 60, height: 6 };
    let out = t.render(area);
    assert_eq!(t.cached_height, 6);
    assert!(matches!(out[0], Draw::Style { area: a, style: "ui.background" } if a == area));
    for i in 0..6u16 {
        assert_eq!(written(&out[1 + i as usize]), (61, 1 + i, "│", "ui.separator"));
    }
    assert_eq!(written(&out[7]), (3, 1, " File Tree (1 selected) ", "ui.text.focus"));
    let dir = Some("ui.text.directory");
    let focus = Some("ui.text.focus");
    let plain = Some("ui.text");
    assert_eq!(line(&out[8]), (2, vec![("▾ ", dir), ("src", dir)]));
    let row = Rect { x: 2, y: 3, width: 59, height: 1 };
    assert!(matches!(out[9], Draw::Style { area: a, style: "ui.selection" } if a == row));
    assert_eq!(
        line(&out[10]),
        (3, vec![("  ", None), ("  ", plain), ("● ", focus), ("main.rs", focus)])
    );
    assert_eq!(
        line(&out[11]),
        (4, vec![("  ", plain), ("a.txt", plain), (" M", Some("diff.delta"))])
    );
    assert_eq!(line(&out[12]), (5, vec![("  ", plain), ("b.txt", plain)]));
    let help = "Enter:open v:sel d:del a:new A:dir p:up q:quit";
    assert_eq!(written(&out[13]), (3, 6, help, "ui.text"));
    assert_eq!(out.len(), 14);
}

#[test]
fn drawing_a_small_tree_with_a_filter() {
    let mut t = tree();
    press(&mut t, "G/ab");
    let out = t.render(Rect { x: 0, y: 0, width: 20, height: 3 });
    // two rows are left, and the selection is in the last one
    assert_eq!(t.scroll, 1);
    assert_eq!(written(&out[4]).2, " File Tree ");
    assert_eq!(line(&out[5]).1[1].0, "a.txt");
    assert_eq!(line(&out[7]).1[1].0, "b.txt");
    assert_eq!(written(&out[8]), (1, 2, "/ab", "ui.text"));
    assert_eq!(out.len(), 9);
}

#[test]
fn every_status_has_its_style() {
    let style = |status| {
        let mut t = tree();
        t.entries = vec![FileEntry::new(p("/w/x"), false, 0)];
        t.entries[0].git_status = Some(status);
        let out = t.render(Rect { x: 0, y: 0, width: 9, height: 2 });
        line(&out[5]).1[2].1.unwrap().to_string()
    };
    assert_eq!(style(GitStatus::Untracked), "diff.plus");
    assert_eq!(style(GitStatus::Modified), "diff.delta");
    assert_eq!(style(GitStatus::Added), "diff.plus");
    assert_eq!(style(GitStatus::Deleted), "diff.minus");
    assert_eq!(style(GitStatus::Renamed), "diff.delta.moved");
    assert_eq!(style(GitStatus::Conflict), "error");
}

#[test]
fn the_box_is_drawn_in_the_center() {
    let lines: Vec<String> = (0..20).map(|i| format!("file number {i:02} with a long name")).collect();
    let b = ConfirmBox::new("Delete these 20 items?".to_string(), lines, vec![]);
    let screen = Rect { x: 0, y: 0, width: 100, height: 20 };
    let frame = b.frame(screen);
    // 31 columns of text with a margin of 4; 12 lines, one more and 5 around
    assert_eq!(frame, Rect { x: 32, y: 1, width: 35, height: 18 });
    let inner = Rect { x: 33, y: 2, width: 33, height: 16 };
    let out = b.render(screen, frame, inner);
    assert!(matches!(out[0], Draw::Clear { area, styles: ("ui.background", "ui.text") } if area == frame));
    assert!(matches!(out[1], Draw::Border { area } if area == frame));
    assert_eq!(written(&out[2]), (34, 2, "Delete these 20 items?", "ui.text.focus"));
    assert_eq!(written(&out[3]), (34, 4, "file number 00 with a long name", "ui.text"));
    assert_eq!(written(&out[14]).1, 15);
    assert_eq!(written(&out[15]), (34, 16, "… and 8 more", "ui.text"));
    assert_eq!(written(&out[16]), (34, 17, "[y] confirm  [n] cancel", "ui.text.focus"));
    assert_eq!(out.len(), 17);
}

#[test]
fn a_small_box_and_a_small_screen() {
    let b = ConfirmBox::new("Delete this item?".to_string(), vec!["x".to_string()], vec![]);
    let frame = b.frame(Rect { x: 10, y: 10, width: 80, height: 24 });
    assert_eq!(frame, Rect { x: 36, y: 19, width: 27, height: 6 });
    // wide characters take two columns
    let b = ConfirmBox::new("漢".repeat(15), vec![], vec![]);
    assert_eq!(b.frame(Rect { x: 0, y: 0, width: 80, height: 24 }).width, 34);
    let b = ConfirmBox::new("t".repeat(200), vec![], vec![]);
    assert_eq!(b.frame(Rect { x: 0, y: 0, width: 200, height: 24 }).width, 80);
    let tiny = Rect { x: 0, y: 0, width: 10, height: 3 };
    assert_eq!(b.frame(tiny), Rect { x: 0, y: 0, width: 10, height: 3 });
}

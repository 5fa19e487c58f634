use helix_workspace::args::{parse_file, Args, Layout, ParsedArgs, Position, SessionArg};
use helix_workspace::disk::{Disk, FileKind};
use helix_workspace::path::PathBuf;

fn p(s: &str) -> PathBuf {
    PathBuf::from(s)
}

fn disk(known: Vec<(&str, FileKind)>) -> Disk {
    Disk { known: known.into_iter().map(|(path, kind)| (p(path), kind)).collect() }
}

fn some_disk() -> Disk {
    disk(vec![
        ("file.toml", FileKind::File),
        ("dir", FileKind::Dir),
        ("odd:10:2", FileKind::File),
    ])
}

fn parse(args: &[&str]) -> Result<ParsedArgs, String> {
    let mut argv = vec!["hx".to_string()];
    argv.extend(args.iter().map(|a| a.to_string()));
    Args::parse_args(&argv, &some_disk())
}

fn resolved(args: &[&str]) -> Args {
    let parsed = parse(args).unwrap();
    let names = parsed.file_args.iter().map(|f| p(&format!("/cwd/{}", f.0.text))).collect();
    parsed.resolve(names)
}

fn files(args: &Args) -> Vec<(&str, Vec<(usize, usize)>)> {
    args.files.iter().map(|(k, v)| (k.as_str(), v.clone())).collect()
}

fn placed(s: &str) -> (String, usize, usize) {
    let (path, Position { row, col }) = parse_file(s, &some_disk());
    (path.text, row, col)
}

#[test]
fn positions_behind_a_path() {
    assert_eq!(placed("file.rs"), ("file.rs".to_string(), 0, 0));
    assert_eq!(placed("file.rs:10"), ("file.rs".to_string(), 9, 0));
    assert_eq!(placed("file.rs:10:2"), ("file.rs".to_string(), 9, 1));
    assert_eq!(placed("file.rs:10:2:"), ("file.rs".to_string(), 9, 1));
    assert_eq!(placed("file.rs:10:"), ("file.rs".to_string(), 9, 0));
    assert_eq!(placed("file.rs:0:0"), ("file.rs".to_string(), 0, 0));
    assert_eq!(placed("file.rs:a:2"), ("file.rs:a".to_string(), 1, 0));
    assert_eq!(placed("file.rs:10:b"), ("file.rs:10:b".to_string(), 0, 0));
    assert_eq!(placed("a:b:3:4"), ("a:b".to_string(), 2, 3));
    assert_eq!(placed("3:4"), ("3".to_string(), 3, 0));
    assert_eq!(placed(":3:4"), ("".to_string(), 2, 3));
    assert_eq!(placed("file.rs:+5"), ("file.rs".to_string(), 4, 0));
    assert_eq!(placed("file.rs:99999999999999999999"), ("file.rs:99999999999999999999".to_string(), 0, 0));
}

#[test]
fn a_file_with_a_position_in_its_name() {
    assert_eq!(placed("odd:10:2"), ("odd:10:2".to_string(), 0, 0));
}

#[test]
fn nothing_on_the_command_line() {
    let args = resolved(&[]);
    assert!(!args.display_help && !args.display_version && !args.health && !args.load_tutor);
    assert!(!args.fetch_grammars && !args.build_grammars && !args.strict && !args.dry_run);
    assert_eq!(args.split, None);
    assert_eq!(args.verbosity, 0);
    assert!(matches!(args.session, SessionArg::Unspecified));
    assert!(args.files.is_empty());
    assert!(Args::parse_args(&vec![], &some_disk()).is_ok());
}

#[test]
fn options_that_stand_alone() {
    let args = resolved(&["--version", "--help", "--strict", "--dry-run", "--tutor"]);
    assert!(args.display_version && args.display_help && args.strict && args.dry_run);
    assert!(args.load_tutor);
    assert_eq!(resolved(&["--vsplit"]).split, Some(Layout::Vertical));
    assert_eq!(resolved(&["--hsplit"]).split, Some(Layout::Horizontal));
}

#[test]
fn short_options() {
    let args = resolved(&["-vvv", "-Vh", "-v"]);
    assert_eq!(args.verbosity, 4);
    assert!(args.display_version && args.display_help);
    assert_eq!(parse(&["-vx"]).unwrap_err(), "unexpected short arg x");
    assert!(parse(&["-"]).is_ok());
}

#[test]
fn options_with_a_value() {
    assert!(resolved(&["-g", "fetch"]).fetch_grammars);
    assert!(resolved(&["--grammar", "build"]).build_grammars);
    assert_eq!(resolved(&["-c", "file.toml"]).config_file, Some(p("file.toml")));
    assert_eq!(resolved(&["--config", "file.toml"]).config_file, Some(p("file.toml")));
    assert_eq!(resolved(&["--config-dir", "dir"]).config_dir, Some(p("dir")));
    assert_eq!(resolved(&["--config-dir", "new"]).config_dir, Some(p("new")));
    assert_eq!(resolved(&["--languages", "file.toml"]).languages_file, Some(p("file.toml")));
    assert_eq!(resolved(&["--runtime-dir", "dir"]).runtime_dir, Some(p("dir")));
    assert_eq!(resolved(&["--runtime-dir", "new"]).runtime_dir, Some(p("new")));
    assert_eq!(resolved(&["--log", "x.log"]).log_file, Some(p("x.log")));
    assert_eq!(resolved(&["-w", "dir"]).working_directory, Some(p("dir")));
    assert_eq!(resolved(&["--working-dir", "dir"]).working_directory, Some(p("dir")));
    assert_eq!(resolved(&["--session-dir", "s"]).session_dir, Some(p("s")));
}

#[test]
fn errors_on_the_command_line() {
    let e = |args: &[&str]| parse(args).unwrap_err();
    let grammar = "--grammar must be followed by either 'fetch' or 'build'";
    assert_eq!(e(&["--vsplit", "--hsplit"]), "can only set a split once of a specific type");
    assert_eq!(e(&["-g"]), grammar);
    assert_eq!(e(&["--grammar", "other"]), grammar);
    assert_eq!(e(&["-c"]), "--config must specify a path to read");
    assert_eq!(e(&["-c", "gone.toml"]), "config file does not exist: gone.toml");
    assert_eq!(e(&["--config", "dir"]), "config file does not exist: dir");
    assert_eq!(e(&["--config-dir"]), "--config-dir must specify a path to a directory");
    assert_eq!(
        e(&["--config-dir", "file.toml"]),
        "--config-dir specified is not a directory: file.toml"
    );
    assert_eq!(e(&["--languages"]), "--languages must specify a path to a languages.toml file");
    assert_eq!(e(&["--languages", "gone"]), "languages file does not exist: gone");
    assert_eq!(e(&["--runtime-dir"]), "--runtime-dir must specify a path to a directory");
    assert_eq!(
        e(&["--runtime-dir", "file.toml"]),
        "--runtime-dir specified is not a directory: file.toml"
    );
    assert_eq!(e(&["--log"]), "--log must specify a path to write");
    assert_eq!(e(&["-w"]), "--working-dir must specify an initial working directory");
    assert_eq!(
        e(&["-w", "file.toml"]),
        "--working-dir specified does not exist or is not a directory"
    );
    assert_eq!(e(&["--session-dir"]), "--session-dir must specify a path to a directory");
    assert_eq!(e(&["--other"]), "unexpected double dash argument: --other");
}

#[test]
fn health_takes_a_language() {
    let args = resolved(&["--health", "rust"]);
    assert!(args.health);
    assert_eq!(args.health_arg.as_deref(), Some("rust"));
    let args = resolved(&["--health", "--strict"]);
    assert!(args.health && args.strict);
    assert_eq!(args.health_arg, None);
    assert!(resolved(&["--health"]).health);
}

#[test]
fn sessions_on_the_command_line() {
    assert!(matches!(resolved(&["--session"]).session, SessionArg::Enabled(None)));
    assert!(matches!(
        resolved(&["--session", "bugfix"]).session,
        SessionArg::Enabled(Some(n)) if n == "bugfix"
    ));
    assert!(matches!(
        resolved(&["--session", "-v"]).session,
        SessionArg::Enabled(None)
    ));
    assert!(matches!(resolved(&["--no-session"]).session, SessionArg::Disabled));
}

#[test]
fn files_keep_their_order_and_gather_their_positions() {
    let args = resolved(&["b.rs:3", "a.rs", "b.rs:5:7", "--", "--strict", "-x"]);
    assert_eq!(
        files(&args),
        [
            ("/cwd/b.rs", vec![(2, 0), (4, 6)]),
            ("/cwd/a.rs", vec![(0, 0)]),
            ("/cwd/--strict", vec![(0, 0)]),
            ("/cwd/-x", vec![(0, 0)]),
        ]
    );
    assert!(!args.strict);
}

#[test]
fn line_numbers_go_to_the_first_file() {
    assert_eq!(files(&resolved(&["+7", "a.rs:3:4", "b.rs"]))[0].1, [(6, 3)]);
    assert_eq!(files(&resolved(&["a.rs:3:4", "+7"]))[0].1, [(6, 3)]);
    assert_eq!(files(&resolved(&["+", "a.rs"]))[0].1, [(usize::MAX, 0)]);
    assert_eq!(files(&resolved(&["+0", "a.rs:3"]))[0].1, [(2, 0)]);
    assert_eq!(files(&resolved(&["+1", "a.rs:3"]))[0].1, [(2, 0)]);
    assert!(resolved(&["+7"]).files.is_empty());
    // what is no number is a file
    assert_eq!(files(&resolved(&["+x"])), [("/cwd/+x", vec![(0, 0)])]);
}

#[test]
fn sessions_are_restored_without_files_only() {
    assert!(resolved(&[]).restores_session());
    assert!(resolved(&["--session", "x", "-v", "+3"]).restores_session());
    assert!(!resolved(&["src/main.rs"]).restores_session());
    assert!(!resolved(&["--", "--help"]).restores_session());
}

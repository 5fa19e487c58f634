use helix_workspace::disk::{Disk, FileKind};
use helix_workspace::dry_run::{
    create_dir_all, enable, is_enabled, record_action, record_read_config,
    record_synthesized_editor, record_synthesized_languages, record_synthesized_theme,
    report_lines, DryRun, LanguagesSummary, ReadOutcome,
};
use helix_workspace::loader::{
    cache_dir, config_dir, config_dirs, config_file, config_file_overrides, data_dir,
    default_log_file, find_workspace, find_workspace_in, initialize_config_dirs,
    initialize_config_file, initialize_lang_config_files, initialize_log_file, lang_config_file,
    lang_config_file_overrides, log_file, runtime_dirs, runtime_file, set_runtime_dir_override,
    workspace_config_file, workspace_lang_config_file, workspace_probes, workspace_runtime_dir,
    Env, Loader,
};
use helix_workspace::path::PathBuf;

fn p(s: &str) -> PathBuf {
    PathBuf::from(s)
}

fn env() -> Env {
    Env {
        config_dir: None,
        config_file: None,
        languages_file: None,
        runtime: None,
        cargo_manifest_dir: None,
        default_runtime: None,
        executable: p("/usr/bin/hx"),
        home: Some(p("/home/u")),
        config_home: p("/home/u/.config"),
        cache_home: p("/home/u/.cache"),
        data_home: p("/home/u/.local/share"),
        current_dir: p("/home/u/project/src"),
    }
}

fn disk(known: Vec<(&str, FileKind)>) -> Disk {
    Disk { known: known.into_iter().map(|(path, kind)| (p(path), kind)).collect() }
}

fn texts(paths: Vec<PathBuf>) -> Vec<String> {
    paths.into_iter().map(|p| p.text).collect()
}

// ── dry run ──────────────────────────────────────────────────────────────

#[test]
fn dry_run_records_without_creating() {
    let mut dry = DryRun::new();
    let found = disk(vec![("/tmp/t/real/nested/dir", FileKind::Dir)]);

    // Disabled: the directory is to be made.
    assert!(!is_enabled(&dry));
    let real = p("/tmp/t/real/nested/dir");
    assert!(create_dir_all(&mut dry, &real, &disk(vec![])));

    // Enable: subsequent calls are recorded, not performed.
    enable(&mut dry);
    assert!(is_enabled(&dry));

    let intercepted = p("/tmp/t/would/be/created");
    assert!(!create_dir_all(&mut dry, &intercepted, &found));

    // Existing directories are not recorded (nothing would be created).
    assert!(!create_dir_all(&mut dry, &real, &found));
    // Duplicate attempts are recorded only once.
    assert!(!create_dir_all(&mut dry, &intercepted, &found));

    record_read_config(&mut dry, p("/some/config.toml"), ReadOutcome::Loaded);
    record_read_config(&mut dry, p("/missing/config.toml"), ReadOutcome::NotFound);
    record_action(&mut dry, "grammar fetch: rust".to_owned(), "would git fetch".to_owned());
    record_synthesized_editor(&mut dry, "scrolloff = 7\n".to_owned());
    record_synthesized_theme(&mut dry, "gruvbox".to_owned());
    record_synthesized_languages(
        &mut dry,
        LanguagesSummary { language_count: 2, grammar_count: 1, grammar_selection: None },
    );

    let report = dry.report.take().unwrap();
    assert_eq!(report.created_dirs, vec![intercepted.clone()]);
    assert_eq!(report.read_configs.len(), 2);
    assert!(matches!(report.read_configs[0].1, ReadOutcome::Loaded));
    assert!(matches!(report.read_configs[1].1, ReadOutcome::NotFound));
    assert_eq!(
        report.actions,
        vec![("grammar fetch: rust".to_owned(), "would git fetch".to_owned())]
    );
    assert_eq!(report.synthesized_editor.as_deref(), Some("scrolloff = 7\n"));
    assert_eq!(report.synthesized_theme.as_deref(), Some("gruvbox"));
    let summary = report.synthesized_languages.unwrap();
    assert_eq!(summary.language_count, 2);
    assert_eq!(summary.grammar_count, 1);
}

#[test]
fn nothing_is_recorded_unless_enabled() {
    let mut dry = DryRun::new();
    record_action(&mut dry, "a".to_owned(), "b".to_owned());
    record_synthesized_theme(&mut dry, "t".to_owned());
    assert!(dry.report.is_none());
}

#[test]
fn read_outcomes_read_well() {
    assert_eq!(ReadOutcome::Loaded.text(), "loaded");
    assert_eq!(ReadOutcome::NotFound.text(), "not found");
    assert_eq!(ReadOutcome::Error("no".to_string()).text(), "ERROR: no");
    assert_eq!(ReadOutcome::Error("no".to_string()).clone().text(), "ERROR: no");
}

#[test]
fn an_empty_report() {
    let mut dry = DryRun::new();
    enable(&mut dry);
    let lines = report_lines(&mut dry, &vec![], &disk(vec![]));
    let expected = vec![
        "",
        "================ dry-run report ================",
        "",
        "-- searched directories --",
        "",
        "-- config files read (in merge order, lowest to highest priority) --",
        "    (none)",
        "",
        "-- directories that would be created --",
        "    (none)",
        "",
        "-- synthesized editor config (merged result) --",
        "  theme: (default)",
        "  (default editor config)",
        "",
        "-- synthesized language config (merged result) --",
        "  (not loaded)",
        "",
        "-- actions that would be performed --",
        "    (none)",
        "",
        "=================================================",
    ];
    assert_eq!(lines, expected);
    // the report is gone, the dry run goes on
    assert!(is_enabled(&dry));
    assert!(dry.report.is_none());
}

#[test]
fn a_full_report() {
    let mut dry = DryRun::new();
    enable(&mut dry);
    let found = disk(vec![("/c/helix", FileKind::Dir)]);
    create_dir_all(&mut dry, &p("/new"), &found);
    record_read_config(&mut dry, p("/c/config.toml"), ReadOutcome::Error("bad".to_owned()));
    record_action(&mut dry, "fetch".to_owned(), "would".to_owned());
    record_synthesized_editor(&mut dry, "a = 1\r\nb = 2\n".to_owned());
    record_synthesized_theme(&mut dry, "gruvbox".to_owned());
    record_synthesized_languages(
        &mut dry,
        LanguagesSummary {
            language_count: 12,
            grammar_count: 7,
            grammar_selection: Some("only: [\n  rust\n]".to_owned()),
        },
    );
    let searched = vec![("config dirs".to_owned(), vec![p("/c/helix"), p("/d")])];
    let lines = report_lines(&mut dry, &searched, &found);
    let expected = vec![
        "",
        "================ dry-run report ================",
        "",
        "-- searched directories --",
        "  config dirs:",
        "    [exists ] /c/helix",
        "    [missing] /d",
        "",
        "-- config files read (in merge order, lowest to highest priority) --",
        "    [ERROR: bad] /c/config.toml",
        "",
        "-- directories that would be created --",
        "    /new",
        "",
        "-- synthesized editor config (merged result) --",
        "  theme: gruvbox",
        "  a = 1",
        "  b = 2",
        "",
        "-- synthesized language config (merged result) --",
        "  languages: 12",
        "  grammars:  7",
        "  use-grammars: only: [",
        "      rust",
        "    ]",
        "",
        "-- actions that would be performed --",
        "    [fetch] would",
        "",
        "=================================================",
    ];
    assert_eq!(lines, expected);
}

// ── config directories and files ─────────────────────────────────────────

#[test]
fn config_dirs_by_priority() {
    let mut loader = Loader::new();
    assert_eq!(texts(config_dirs(&mut loader, &env())), ["/home/u/.config/helix"]);

    let mut loader = Loader::new();
    let mut e = env();
    e.config_dir = Some(p("/env"));
    let mut dry = DryRun::new();
    let found = disk(vec![("/cli", FileKind::Dir)]);
    let make = initialize_config_dirs(&mut loader, Some(p("/cli")), &e, &mut dry, &found);
    assert_eq!(make, None);
    assert_eq!(texts(config_dirs(&mut loader, &e)), ["/cli", "/env", "/home/u/.config/helix"]);
    assert_eq!(config_dir(&mut loader, &e), p("/cli"));

    // they are settled once
    initialize_config_dirs(&mut loader, Some(p("/other")), &e, &mut dry, &found);
    assert_eq!(config_dir(&mut loader, &e), p("/cli"));
}

#[test]
fn paths_of_users_are_normalized() {
    let mut e = env();
    e.config_dir = Some(p("~/dots/../conf"));
    e.config_file = Some(p("~/c.toml"));
    e.languages_file = Some(p("/l/./l.toml"));
    e.runtime = Some(p("/r/"));
    e.cargo_manifest_dir = Some(p("/src/../src/term"));
    let mut loader = Loader::new();
    let mut dry = DryRun::new();
    let none = disk(vec![]);
    let make = initialize_config_dirs(&mut loader, Some(p("/a/../b")), &e, &mut dry, &none);
    assert_eq!(make.unwrap().text, "/b");
    assert_eq!(
        texts(config_dirs(&mut loader, &e)),
        ["/b", "/home/u/conf", "/home/u/.config/helix"]
    );
    assert_eq!(texts(config_file_overrides(&mut loader, &e)), ["/home/u/c.toml"]);
    assert_eq!(texts(lang_config_file_overrides(&mut loader, &e)), ["/l/l.toml"]);
    let make = set_runtime_dir_override(&mut loader, Some(p("~/rt/.")), &e, &mut dry, &none);
    assert_eq!(make.unwrap().text, "/home/u/rt");
    let dirs = texts(runtime_dirs(&mut loader, &e, &none, false));
    // what cargo says is taken as it stands
    assert_eq!(dirs[..3], ["/home/u/rt", "/r", "/src/../src/runtime"]);
}

#[test]
fn a_new_config_dir_is_made() {
    let mut loader = Loader::new();
    let mut dry = DryRun::new();
    let make = initialize_config_dirs(&mut loader, Some(p("/new")), &env(), &mut dry, &disk(vec![]));
    assert_eq!(make, Some(p("/new")));

    // a dry run only says so
    let mut loader = Loader::new();
    enable(&mut dry);
    let make = initialize_config_dirs(&mut loader, Some(p("/new")), &env(), &mut dry, &disk(vec![]));
    assert_eq!(make, None);
    assert_eq!(dry.report.unwrap().created_dirs, vec![p("/new")]);
}

#[test]
fn config_files_by_priority() {
    let mut e = env();
    let mut loader = Loader::new();
    assert_eq!(config_file(&mut loader, &e), p("/home/u/.config/helix/config.toml"));
    assert!(config_file_overrides(&mut loader, &e).is_empty());

    e.config_file = Some(p("/env.toml"));
    let mut loader = Loader::new();
    assert_eq!(config_file(&mut loader, &e), p("/env.toml"));

    let mut loader = Loader::new();
    let mut dry = DryRun::new();
    let make =
        initialize_config_file(&mut loader, Some(p("/x/cli.toml")), &e, &mut dry, &disk(vec![]));
    assert_eq!(make, Some(p("/x")));
    assert_eq!(texts(config_file_overrides(&mut loader, &e)), ["/env.toml", "/x/cli.toml"]);
    assert_eq!(config_file(&mut loader, &e), p("/x/cli.toml"));
}

#[test]
fn the_directory_of_the_default_config_file_is_made() {
    let mut loader = Loader::new();
    let mut dry = DryRun::new();
    let make = initialize_config_file(&mut loader, None, &env(), &mut dry, &disk(vec![]));
    assert_eq!(make, Some(p("/home/u/.config/helix")));
    let found = disk(vec![("/home/u/.config/helix", FileKind::Dir)]);
    let make = initialize_config_file(&mut Loader::new(), None, &env(), &mut dry, &found);
    assert_eq!(make, None);
}

#[test]
fn language_files_by_priority() {
    let mut e = env();
    let mut loader = Loader::new();
    assert_eq!(lang_config_file(&mut loader, &e), p("/home/u/.config/helix/languages.toml"));
    e.languages_file = Some(p("/env.toml"));
    let mut loader = Loader::new();
    initialize_lang_config_files(&mut loader, Some(p("/cli.toml")), &e);
    assert_eq!(texts(lang_config_file_overrides(&mut loader, &e)), ["/env.toml", "/cli.toml"]);
    assert_eq!(lang_config_file(&mut loader, &e), p("/cli.toml"));
    initialize_lang_config_files(&mut loader, None, &e);
    assert_eq!(lang_config_file(&mut loader, &e), p("/cli.toml"));
}

#[test]
fn directories_for_caches_data_and_logs() {
    let e = env();
    assert_eq!(cache_dir(&e), p("/home/u/.cache/helix"));
    assert_eq!(data_dir(&e), p("/home/u/.local/share/helix"));
    assert_eq!(default_log_file(&e), p("/home/u/.cache/helix/helix.log"));

    let mut loader = Loader::new();
    let mut dry = DryRun::new();
    let make = initialize_log_file(&mut loader, None, &e, &mut dry, &disk(vec![]));
    assert_eq!(make, Some(p("/home/u/.cache/helix")));
    assert_eq!(log_file(&loader), p("/home/u/.cache/helix/helix.log"));
    initialize_log_file(&mut loader, Some(p("/tmp/other.log")), &e, &mut dry, &disk(vec![]));
    assert_eq!(log_file(&loader), p("/home/u/.cache/helix/helix.log"));
}

// ── the workspace ────────────────────────────────────────────────────────

#[test]
fn the_nearest_marked_directory_is_the_workspace() {
    for marker in [".git", ".svn", ".jj", ".helix"] {
        let path = format!("/home/u/project/{marker}");
        let found = disk(vec![(&path, FileKind::Dir), ("/home/u/.git", FileKind::Dir)]);
        assert_eq!(
            find_workspace_in(&p("/home/u/project/src/deep"), &found),
            (p("/home/u/project"), false)
        );
    }
    let found = disk(vec![("/.git", FileKind::File)]);
    assert_eq!(find_workspace_in(&p("/a/b"), &found), (p("/"), false));
    assert_eq!(find_workspace_in(&p("/a/b"), &disk(vec![])), (p("/a/b"), true));
}

#[test]
fn files_of_the_workspace() {
    let e = env();
    let found = disk(vec![("/home/u/project/.helix", FileKind::Dir)]);
    assert_eq!(find_workspace(&e, &found), (p("/home/u/project"), false));
    assert_eq!(workspace_config_file(&e, &found), p("/home/u/project/.helix/config.toml"));
    assert_eq!(
        workspace_lang_config_file(&e, &found),
        p("/home/u/project/.helix/languages.toml")
    );
    assert_eq!(workspace_runtime_dir(&e, &found), p("/home/u/project/.helix/runtime"));
}

#[test]
fn every_marker_of_every_directory_upward_is_probed() {
    assert_eq!(
        texts(workspace_probes(&p("/a"))),
        ["/a/.git", "/a/.svn", "/a/.jj", "/a/.helix", "/.git", "/.svn", "/.jj", "/.helix"]
    );
}

// ── runtime ──────────────────────────────────────────────────────────────

#[test]
fn runtime_dirs_by_priority() {
    let mut e = env();
    let mut loader = Loader::new();
    let dirs = runtime_dirs(&mut loader, &e, &disk(vec![]), false);
    assert_eq!(texts(dirs), ["/home/u/.config/helix/runtime", "/usr/bin/runtime"]);

    e.runtime = Some(p("/env"));
    e.cargo_manifest_dir = Some(p("/src/helix/helix-term"));
    e.default_runtime = Some(p("/usr/lib/helix"));
    let found = disk(vec![
        ("/home/u/project/.git", FileKind::Dir),
        ("/home/u/project/.helix/runtime", FileKind::Dir),
    ]);
    let mut loader = Loader::new();
    let mut dry = DryRun::new();
    let make = set_runtime_dir_override(&mut loader, Some(p("/cli")), &e, &mut dry, &found);
    assert_eq!(make, Some(p("/cli")));
    let dirs = runtime_dirs(&mut loader, &e, &found, true);
    assert_eq!(
        texts(dirs),
        [
            "/cli",
            "/env",
            "/home/u/project/.helix/runtime",
            "/src/helix/runtime",
            "/home/u/.config/helix/runtime",
            "/usr/lib/helix",
            "/usr/bin/runtime",
        ]
    );
    // they are settled once
    assert_eq!(runtime_dirs(&mut loader, &e, &found, false).len(), 7);
}

#[test]
fn the_runtime_of_a_workspace_has_to_be_trusted() {
    let found = disk(vec![
        ("/home/u/project/.git", FileKind::Dir),
        ("/home/u/project/.helix/runtime", FileKind::Dir),
    ]);
    let dirs = runtime_dirs(&mut Loader::new(), &env(), &found, false);
    assert_eq!(dirs.len(), 2);
    // and it has to be there
    let found = disk(vec![("/home/u/project/.git", FileKind::Dir)]);
    let dirs = runtime_dirs(&mut Loader::new(), &env(), &found, true);
    assert_eq!(dirs.len(), 2);
}

#[test]
fn a_runtime_dir_that_is_there_is_not_made() {
    let mut dry = DryRun::new();
    let found = disk(vec![("/cli", FileKind::Dir)]);
    let mut loader = Loader::new();
    assert_eq!(set_runtime_dir_override(&mut loader, Some(p("/cli")), &env(), &mut dry, &found), None);
    assert_eq!(set_runtime_dir_override(&mut loader, None, &env(), &mut dry, &found), None);
    assert_eq!(runtime_dirs(&mut loader, &env(), &found, false)[0], p("/cli"));
}

#[test]
fn runtime_files_are_looked_for_in_order() {
    let e = env();
    let found = disk(vec![
        ("/usr/bin/runtime/themes/a.toml", FileKind::File),
        ("/usr/bin/runtime/themes/b.toml", FileKind::File),
        ("/home/u/.config/helix/runtime/themes/b.toml", FileKind::File),
    ]);
    let mut loader = Loader::new();
    let mut file = |rel: &str| runtime_file(&mut loader, rel, &e, &found, false).text;
    assert_eq!(file("themes/a.toml"), "/usr/bin/runtime/themes/a.toml");
    assert_eq!(file("themes/b.toml"), "/home/u/.config/helix/runtime/themes/b.toml");
    assert_eq!(file("tutor"), "/usr/bin/runtime/tutor");
}

#[test]
fn the_current_directory_is_not_made() {
    // neither for a log file without a directory nor for a config file
    let none = disk(vec![]);
    let mut dry = DryRun::new();
    let mut loader = Loader::new();
    let make = initialize_log_file(&mut loader, Some(p("hx.log")), &env(), &mut dry, &none);
    assert_eq!(make, None);
    enable(&mut dry);
    let mut loader = Loader::new();
    let make = initialize_log_file(&mut loader, Some(p("hx.log")), &env(), &mut dry, &none);
    assert_eq!(make, None);
    let make = initialize_config_file(&mut loader, Some(p("./extra.toml")), &env(), &mut dry, &none);
    assert_eq!(make, None);
    let make = initialize_config_dirs(&mut loader, Some(p(".")), &env(), &mut dry, &none);
    assert_eq!(make, None);
    assert!(dry.report.as_ref().unwrap().created_dirs.is_empty());
    initialize_log_file(&mut loader, Some(p("logs/hx.log")), &env(), &mut dry, &none);
    assert_eq!(dry.report.unwrap().created_dirs, [p("logs")]);
}

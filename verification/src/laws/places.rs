//! Where files are looked for and put, and what a dry run tells of it.
use crate::disk::{kind_of, Disk, FileKind};
use crate::dry_run::{
    action_lines, created_lines, editor_lines, empty_report, language_lines, or_none, read_lines,
    report_text, reporting, searched_lines, DryRunView, LanguagesSummary, ReadOutcome, ReportView,
};
use crate::loader::{
    after_effective, as_meant, at_most_one, config_dirs_in, config_dirs_of, config_files_in,
    config_files_of, default_log_of, effective_file, first_present, is_workspace, lang_files_in,
    lang_files_of, law_workspace, parent_created, parent_to_make, probes_in, runtime_beside,
    runtime_dirs_in, runtime_dirs_of, runtime_file_in, runtime_in, settled, some_dir_created,
    some_dir_to_make, trusted_runtime_of, with_config_dirs, with_runtime_dirs, workspace_file,
    workspace_of, Env, LoaderView,
};
use crate::normalize::normalized;
use crate::path::{ancestors, joined, parent, parts, path_text, PathBuf};
use crate::text::{decimal, lines};
use vstd::prelude::*;

verus! {

// ── Config directories and files ─────────────────────────────────────────
/// A path as its user means it.
pub open spec fn meant_by(t: Seq<char>, env: Env) -> Seq<char> {
    normalized(
        t,
        match env.home {
            Some(home) => Some(home@),
            None => None,
        },
    )
}

/// The config directories, from highest to lowest priority: the one of the
/// command line, that of the environment, the system's.
pub proof fn law_config_dirs_ranked(specified: Option<Seq<char>>, env: Env)
    ensures
        ({
            let dirs = config_dirs_of(specified, env);
            let system = joined(env.config_home@, "helix"@);
            match (specified, env.config_dir) {
                (Some(s), Some(e)) => dirs == seq![meant_by(s, env), meant_by(e@, env), system],
                (Some(s), None) => dirs == seq![meant_by(s, env), system],
                (None, Some(e)) => dirs == seq![meant_by(e@, env), system],
                (None, None) => dirs == seq![system],
            }
        }),
{
}

/// The explicit config files, from lowest to highest priority: that of the
/// environment, the one of the command line; and the same for languages.
pub proof fn law_explicit_files_ranked(specified: Option<Seq<char>>, env: Env)
    ensures
        match (env.config_file, specified) {
            (Some(e), Some(s)) => config_files_of(specified, env) == seq![
                meant_by(e@, env),
                meant_by(s, env),
            ],
            (Some(e), None) => config_files_of(specified, env) == seq![meant_by(e@, env)],
            (None, Some(s)) => config_files_of(specified, env) == seq![meant_by(s, env)],
            (None, None) => config_files_of(specified, env).len() == 0,
        },
        match (env.languages_file, specified) {
            (Some(e), Some(s)) => lang_files_of(specified, env) == seq![
                meant_by(e@, env),
                meant_by(s, env),
            ],
            (Some(e), None) => lang_files_of(specified, env) == seq![meant_by(e@, env)],
            (None, Some(s)) => lang_files_of(specified, env) == seq![meant_by(s, env)],
            (None, None) => lang_files_of(specified, env).len() == 0,
        },
{
}

/// The file that is written to: the explicit one with the highest priority,
/// else the one in the first config directory.
pub proof fn law_effective(files: Seq<Seq<char>>, dirs: Seq<Seq<char>>, name: Seq<char>)
    ensures
        files.len() > 0 ==> effective_file(files, dirs, name) == files[files.len() - 1],
        files.len() == 0 ==> effective_file(files, dirs, name) == joined(dirs[0], name),
{
}

/// What was settled before stands, and else the environment decides; nothing
/// else of what was settled changes.
pub proof fn law_settled(v: LoaderView, env: Env)
    ensures
        v.config_dirs matches Some(dirs) ==> config_dirs_in(v, env) == dirs,
        v.config_dirs is None ==> config_dirs_in(v, env) == config_dirs_of(None, env),
        v.config_file_overrides matches Some(f) ==> config_files_in(v, env) == f,
        v.config_file_overrides is None ==> config_files_in(v, env) == config_files_of(None, env),
        v.lang_config_file_overrides matches Some(f) ==> lang_files_in(v, env) == f,
        v.lang_config_file_overrides is None ==> lang_files_in(v, env) == lang_files_of(None, env),
        with_config_dirs(v, env) == (LoaderView { config_dirs: Some(config_dirs_in(v, env)), ..v }),
        forall|old: Option<Seq<Seq<char>>>, new: Seq<Seq<char>>|
            #![trigger settled(old, new)]
            settled(old, new) == (if old is Some {
                old->0
            } else {
                new
            }),
        forall|old: Option<Seq<char>>, new: Seq<char>|
            #![trigger settled(old, new)]
            settled(old, new) == (if old is Some {
                old->0
            } else {
                new
            }),
{
}

/// The log file lies in the cache, unless it is specified.
pub proof fn law_log_file(env: Env)
    ensures
        default_log_of(env) == joined(joined(env.cache_home@, "helix"@), "helix.log"@),
{
}

// ── Runtime directories ──────────────────────────────────────────────────
/// One for a path that is given, none for one that is not.
pub open spec fn one_if(given: bool) -> int {
    if given {
        1
    } else {
        0
    }
}

/// The directories that runtime files are looked for in, from highest to
/// lowest priority: of the command line, the environment, the workspace, the
/// sources, the config directories, the build, and beside the executable. What
/// is not given leaves its place to the next.
pub proof fn law_runtime_dirs_ranked(
    cli: Option<Seq<char>>,
    workspace: Option<Seq<char>>,
    env: Env,
    dirs: Seq<Seq<char>>,
    i: int,
)
    requires
        env.cargo_manifest_dir matches Some(dir) ==> parent(dir@) is Some,
        parent(env.executable@) is Some,
    ensures
        ({
            let r = runtime_dirs_of(cli, workspace, env, dirs);
            let a = one_if(cli is Some);
            let b = a + one_if(env.runtime is Some);
            let c = b + one_if(workspace is Some);
            let d = c + one_if(env.cargo_manifest_dir is Some);
            let e = d + dirs.len();
            let f = e + one_if(env.default_runtime is Some);
            &&& r.len() == f + 1
            &&& cli matches Some(t) ==> r[0] == t
            &&& env.runtime matches Some(t) ==> r[a] == meant_by(t@, env)
            &&& workspace matches Some(t) ==> r[b] == t
            &&& env.cargo_manifest_dir matches Some(t) ==> r[c] == joined(parent(t@)->0, "runtime"@)
            &&& 0 <= i < dirs.len() ==> r[d + i] == joined(dirs[i], "runtime"@)
            &&& env.default_runtime matches Some(t) ==> r[e] == t@
            &&& r[f] == joined(parent(env.executable@)->0, "runtime"@)
        }),
{
    let one = at_most_one(cli);
    let two = at_most_one(as_meant(path_text(env.runtime), env));
    let three = at_most_one(workspace);
    let four = at_most_one(
        match env.cargo_manifest_dir {
            Some(dir) => Some(runtime_beside(dir@)),
            None => None,
        },
    );
    let five = runtime_in(dirs);
    let six = at_most_one(path_text(env.default_runtime));
    let seven = seq![runtime_beside(env.executable@)];
    let r = runtime_dirs_of(cli, workspace, env, dirs);
    assert(r == one + two + three + four + five + six + seven);
    assert(one.len() == one_if(cli is Some));
    assert(two.len() == one_if(env.runtime is Some));
    assert(three.len() == one_if(workspace is Some));
    assert(four.len() == one_if(env.cargo_manifest_dir is Some));
    assert(six.len() == one_if(env.default_runtime is Some));
    assert(five.len() == dirs.len());
}

/// The runtime directory of the workspace counts only if it is there and the
/// workspace is trusted.
pub proof fn law_workspace_runtime(env: Env, disk: Disk, trusted: bool)
    ensures
        ({
            let t = joined(joined(workspace_of(env.current_dir@, disk).0, ".helix"@), "runtime"@);
            &&& trusted && disk.dir_at(t) ==> trusted_runtime_of(env, disk, trusted) == Some(t)
            &&& !trusted || !disk.dir_at(t) ==> trusted_runtime_of(env, disk, trusted) is None
        }),
{
}

/// What was settled of the runtime directories stands; else they are taken
/// from the command line, the workspace, the environment and the config
/// directories as these are then, and settled with them.
pub proof fn law_runtime_settled(v: LoaderView, env: Env, disk: Disk, trusted: bool)
    ensures
        v.runtime_dirs matches Some(dirs) ==> runtime_dirs_in(v, env, disk, trusted) == dirs
            && with_runtime_dirs(v, env, disk, trusted) == v,
        v.runtime_dirs is None ==> ({
            let cli = match v.runtime_dir_override {
                Some(o) => o,
                None => None,
            };
            let dirs = match v.config_dirs {
                Some(dirs) => dirs,
                None => config_dirs_of(None, env),
            };
            let all = runtime_dirs_of(cli, trusted_runtime_of(env, disk, trusted), env, dirs);
            &&& runtime_dirs_in(v, env, disk, trusted) == all
            &&& with_runtime_dirs(v, env, disk, trusted) == (LoaderView {
                runtime_dirs: Some(all),
                config_dirs: Some(dirs),
                ..v
            })
        }),
{
}

/// A runtime file is found in the first directory that has it; if none has it,
/// it is the one that the last directory would have.
pub proof fn law_runtime_file_found(dirs: Seq<Seq<char>>, rel: Seq<char>, disk: Disk, i: int)
    requires
        0 <= i <= dirs.len(),
        forall|j: int| 0 <= j < i ==> !disk.present(joined(#[trigger] dirs[j], rel)),
        i < dirs.len() ==> disk.present(joined(dirs[i], rel)),
    ensures
        i < dirs.len() ==> runtime_file_in(dirs, rel, disk) == joined(dirs[i], rel),
        i == dirs.len() && dirs.len() > 0 ==> runtime_file_in(dirs, rel, disk) == joined(
            dirs[dirs.len() - 1],
            rel,
        ),
{
    lemma_first_present(dirs, rel, disk, i);
}

proof fn lemma_first_present(dirs: Seq<Seq<char>>, rel: Seq<char>, disk: Disk, i: int)
    requires
        0 <= i <= dirs.len(),
        forall|j: int| 0 <= j < i ==> !disk.present(joined(#[trigger] dirs[j], rel)),
        i < dirs.len() ==> disk.present(joined(dirs[i], rel)),
    ensures
        first_present(dirs, rel, disk) == (if i < dirs.len() {
            Some(joined(dirs[i], rel))
        } else {
            None
        }),
    decreases dirs.len(),
{
    if dirs.len() > 0 && i > 0 {
        let rest = dirs.skip(1);
        assert(!disk.present(joined(dirs[0], rel)));
        assert forall|j: int| 0 <= j < i - 1 implies !disk.present(
            joined(#[trigger] rest[j], rel),
        ) by {
            assert(rest[j] == dirs[j + 1]);
        }
        if i < dirs.len() {
            assert(rest[i - 1] == dirs[i]);
        }
        lemma_first_present(rest, rel, disk, i - 1);
    }
}

// ── The workspace ────────────────────────────────────────────────────────
/// Whether a directory has something that marks a workspace.
pub open spec fn marked_as_workspace(t: Seq<char>, disk: Disk) -> bool {
    ||| disk.kind_at(joined(t, ".git"@)) is Some
    ||| disk.kind_at(joined(t, ".svn"@)) is Some
    ||| disk.kind_at(joined(t, ".jj"@)) is Some
    ||| disk.kind_at(joined(t, ".helix"@)) is Some
}

/// The workspace is the nearest directory, from `t` up, that is marked as one;
/// if none is, it is `t` itself, and that is told.
pub proof fn law_nearest_workspace(t: Seq<char>, disk: Disk, i: int)
    requires
        0 <= i <= ancestors(t).len(),
        forall|j: int| 0 <= j < i ==> !marked_as_workspace(#[trigger] ancestors(t)[j], disk),
        i < ancestors(t).len() ==> marked_as_workspace(ancestors(t)[i], disk),
    ensures
        i < ancestors(t).len() ==> workspace_of(t, disk) == (ancestors(t)[i], false),
        i == ancestors(t).len() ==> workspace_of(t, disk) == (t, true),
{
    law_workspace(t, disk);
    let s = ancestors(t);
    assert forall|j: int| 0 <= j < s.len() implies is_workspace(#[trigger] s[j], disk)
        == marked_as_workspace(s[j], disk) by {}
    let (w, none) = workspace_of(t, disk);
    if none {
        if i < s.len() {
            assert(is_workspace(s[i], disk));
        }
    } else {
        let k = choose|k: int|
            0 <= k < s.len() && #[trigger] s[k] == w && is_workspace(w, disk) && forall|j: int|
                0 <= j < k ==> !is_workspace(#[trigger] s[j], disk);
        assert(marked_as_workspace(s[k], disk));
        if k < i {
            assert(!marked_as_workspace(s[k], disk));
        }
        if i < k {
            assert(!is_workspace(s[i], disk));
        }
    }
}

/// Files of the workspace lie in its directory `.helix`.
pub proof fn law_workspace_file(env: Env, disk: Disk, name: Seq<char>)
    ensures
        workspace_file(env, disk, name) == joined(
            joined(workspace_of(env.current_dir@, disk).0, ".helix"@),
            name,
        ),
{
}

/// To find the workspace, the four markers are looked for in each directory.
pub proof fn law_probes(s: Seq<Seq<char>>, i: int)
    requires
        0 <= i < s.len(),
    ensures
        probes_in(s).len() == 4 * s.len(),
        probes_in(s).contains(joined(s[i], ".git"@)),
        probes_in(s).contains(joined(s[i], ".svn"@)),
        probes_in(s).contains(joined(s[i], ".jj"@)),
        probes_in(s).contains(joined(s[i], ".helix"@)),
    decreases s.len(),
{
    lemma_probes(s);
    assert(probes_in(s)[4 * i] == joined(s[i], ".git"@));
    assert(probes_in(s)[4 * i + 1] == joined(s[i], ".svn"@));
    assert(probes_in(s)[4 * i + 2] == joined(s[i], ".jj"@));
    assert(probes_in(s)[4 * i + 3] == joined(s[i], ".helix"@));
}

proof fn lemma_probes(s: Seq<Seq<char>>)
    ensures
        probes_in(s).len() == 4 * s.len(),
        forall|i: int|
            0 <= i < s.len() ==> {
                &&& probes_in(s)[4 * i] == joined(#[trigger] s[i], ".git"@)
                &&& probes_in(s)[4 * i + 1] == joined(s[i], ".svn"@)
                &&& probes_in(s)[4 * i + 2] == joined(s[i], ".jj"@)
                &&& probes_in(s)[4 * i + 3] == joined(s[i], ".helix"@)
            },
    decreases s.len(),
{
    if s.len() > 0 {
        let d = s.drop_last();
        lemma_probes(d);
        assert forall|i: int| 0 <= i < s.len() implies {
            &&& probes_in(s)[4 * i] == joined(#[trigger] s[i], ".git"@)
            &&& probes_in(s)[4 * i + 1] == joined(s[i], ".svn"@)
            &&& probes_in(s)[4 * i + 2] == joined(s[i], ".jj"@)
            &&& probes_in(s)[4 * i + 3] == joined(s[i], ".helix"@)
        } by {
            if i < d.len() {
                assert(d[i] == s[i]);
            }
        }
    }
}

// ── Dry runs ─────────────────────────────────────────────────────────────
/// A directory that should be there is made if it is not, but never in a dry
/// run, which takes down its path instead, once; the current directory is
/// there.
pub proof fn law_directory_made(v: DryRunView, t: Seq<char>, disk: Disk)
    ensures
        some_dir_to_make(v, None, disk) is None,
        some_dir_created(v, None, disk) == v,
        ({
            let wanted = t.len() > 0 && disk.kind_at(t) is None;
            let after = some_dir_created(v, Some(t), disk);
            &&& some_dir_to_make(v, Some(t), disk) == (if wanted && !v.enabled {
                Some(t)
            } else {
                None
            })
            &&& !wanted || !v.enabled || v.report is None ==> after == v
            &&& wanted && v.enabled ==> (v.report matches Some(r) ==> ({
                let known = exists|i: int|
                    0 <= i < r.created_dirs.len() && parts(#[trigger] r.created_dirs[i]) == parts(t);
                &&& known ==> after == v
                &&& !known ==> after == (DryRunView {
                    report: Some(ReportView { created_dirs: r.created_dirs.push(t), ..r }),
                    ..v
                })
            }))
        }),
        parent_to_make(v, t, disk) == some_dir_to_make(v, parent(t), disk),
        parent_created(v, t, disk) == some_dir_created(v, parent(t), disk),
{
}

/// What is recorded goes into the report, if there is one, and nothing else
/// changes.
pub proof fn law_recorded(v: DryRunView, f: spec_fn(ReportView) -> ReportView)
    ensures
        v.report matches Some(r) ==> reporting(v, f) == (DryRunView {
            enabled: v.enabled,
            report: Some(f(r)),
        }),
        v.report is None ==> reporting(v, f) == v,
        empty_report().created_dirs.len() == 0,
        empty_report().read_configs.len() == 0,
        empty_report().actions.len() == 0,
        empty_report().synthesized_editor is None,
        empty_report().synthesized_theme is None,
        empty_report().synthesized_languages is None,
{
}

/// The report has its sections in order, each under its heading.
pub proof fn law_report(r: ReportView, searched: Seq<(String, Vec<PathBuf>)>, disk: Disk)
    ensures
        ({
            let blank = ""@;
            let head = seq![
                blank,
                "================ dry-run report ================"@,
                blank,
                "-- searched directories --"@,
            ];
            let read = seq![
                blank,
                "-- config files read (in merge order, lowest to highest priority) --"@,
            ];
            let made = seq![blank, "-- directories that would be created --"@];
            let editor = seq![blank, "-- synthesized editor config (merged result) --"@];
            let langs = seq![blank, "-- synthesized language config (merged result) --"@];
            let acts = seq![blank, "-- actions that would be performed --"@];
            let foot = seq![blank, "================================================="@];
            report_text(r, searched, disk) == head + searched_lines(searched, disk) + read + or_none(
                read_lines(r.read_configs),
            ) + made + or_none(created_lines(r.created_dirs)) + editor + editor_lines(
                r.synthesized_theme,
                r.synthesized_editor,
            ) + langs + language_lines(r.synthesized_languages) + acts + or_none(
                action_lines(r.actions),
            ) + foot
        }),
{
}

/// How each thing is shown in the report.
pub proof fn law_report_lines(
    r: ReportView,
    searched: Seq<(String, Vec<PathBuf>)>,
    disk: Disk,
    i: int,
)
    ensures
        read_lines(r.read_configs).len() == r.read_configs.len(),
        0 <= i < r.read_configs.len() ==> read_lines(r.read_configs)[i] == "    ["@ + (
        match r.read_configs[i].1 {
            ReadOutcome::Loaded => "loaded"@,
            ReadOutcome::NotFound => "not found"@,
            ReadOutcome::Error(err) => "ERROR: "@ + err@,
        }) + "] "@ + r.read_configs[i].0@,
        created_lines(r.created_dirs).len() == r.created_dirs.len(),
        0 <= i < r.created_dirs.len() ==> created_lines(r.created_dirs)[i] == "    "@
            + r.created_dirs[i],
        action_lines(r.actions).len() == r.actions.len(),
        0 <= i < r.actions.len() ==> action_lines(r.actions)[i] == "    ["@ + r.actions[i].0@
            + "] "@ + r.actions[i].1@,
        or_none(Seq::empty()) == seq!["    (none)"@],
        read_lines(r.read_configs).len() > 0 ==> or_none(read_lines(r.read_configs)) == read_lines(
            r.read_configs,
        ),
        created_lines(r.created_dirs).len() > 0 ==> or_none(created_lines(r.created_dirs))
            == created_lines(r.created_dirs),
        action_lines(r.actions).len() > 0 ==> or_none(action_lines(r.actions)) == action_lines(
            r.actions,
        ),
{
}

/// The directories that were searched are shown in groups, each under its
/// label, with whether they are there.
pub proof fn law_searched(
    s: Seq<(String, Vec<PathBuf>)>,
    label: String,
    dirs: Vec<PathBuf>,
    disk: Disk,
    i: int,
)
    ensures
        searched_lines(Seq::empty(), disk).len() == 0,
        ({
            let before = searched_lines(s, disk);
            let all = searched_lines(s.push((label, dirs)), disk);
            &&& all.len() == before.len() + 1 + dirs@.len()
            &&& all.take(before.len() as int) == before
            &&& all[before.len() as int] == "  "@ + label@ + ":"@
            &&& 0 <= i < dirs@.len() ==> all[before.len() + 1 + i] == "    ["@ + (if disk.kind_at(
                dirs@[i]@,
            ) == Some(FileKind::Dir) {
                "exists "@
            } else {
                "missing"@
            }) + "] "@ + dirs@[i]@
        }),
{
    let all = s.push((label, dirs));
    assert(all.drop_last() =~= s);
    let before = searched_lines(s, disk);
    assert(searched_lines(all, disk).take(before.len() as int) =~= before);
}

/// The merged configuration in the report: the theme and the editor's
/// settings, and the number of languages and of grammars with the choice of
/// these; each line is indented.
pub proof fn law_report_config(
    theme: Option<String>,
    editor: Option<String>,
    languages: Option<LanguagesSummary>,
    i: int,
)
    ensures
        ({
            let r = editor_lines(theme, editor);
            &&& r.len() > 0
            &&& theme matches Some(t) ==> r[0] == "  theme: "@ + t@
            &&& theme is None ==> r[0] == "  theme: "@ + "(default)"@
            &&& editor is None ==> r.len() == 2 && r[1] == "  (default editor config)"@
            &&& editor matches Some(e) ==> r.len() == 1 + lines(e@).len() && (0 <= i < lines(
                e@,
            ).len() ==> r[1 + i] == "  "@ + lines(e@)[i])
        }),
        languages is None ==> language_lines(languages) == seq!["  (not loaded)"@],
        languages matches Some(l) ==> ({
            let r = language_lines(languages);
            &&& r.len() >= 2
            &&& r[0] == "  languages: "@ + decimal(l.language_count as nat)
            &&& r[1] == "  grammars:  "@ + decimal(l.grammar_count as nat)
            &&& l.grammar_selection is None ==> r.len() == 3 && r[2]
                == "  use-grammars: (all grammars selected)"@
            &&& l.grammar_selection matches Some(g) ==> {
                &&& r.len() == 2 + lines(g@).len()
                &&& lines(g@).len() > 0 ==> r[2] == "  use-grammars: "@ + lines(g@)[0]
                &&& 0 < i < lines(g@).len() ==> r[2 + i] == "    "@ + lines(g@)[i]
            }
        }),
{
}

/// What a path leads to is what is known of it first.
pub proof fn law_disk(disk: Disk, t: Seq<char>, i: int)
    requires
        0 <= i <= disk.known@.len(),
        forall|j: int| 0 <= j < i ==> (#[trigger] disk.known@[j]).0@ != t,
        i < disk.known@.len() ==> disk.known@[i].0@ == t,
    ensures
        i == disk.known@.len() ==> disk.kind_at(t) is None,
        i < disk.known@.len() ==> disk.kind_at(t) == Some(disk.known@[i].1),
        disk.present(t) == (disk.kind_at(t) is Some),
        disk.dir_at(t) == (disk.kind_at(t) == Some(FileKind::Dir)),
        disk.file_at(t) == (disk.kind_at(t) == Some(FileKind::File)),
{
    lemma_kind_of(disk.known@, t, i);
}

proof fn lemma_kind_of(s: Seq<(PathBuf, FileKind)>, t: Seq<char>, i: int)
    requires
        0 <= i <= s.len(),
        forall|j: int| 0 <= j < i ==> (#[trigger] s[j]).0@ != t,
        i < s.len() ==> s[i].0@ == t,
    ensures
        kind_of(s, t) == (if i < s.len() {
            Some(s[i].1)
        } else {
            None
        }),
    decreases s.len(),
{
    if s.len() > 0 && i > 0 {
        let rest = s.skip(1);
        assert(s[0].0@ != t);
        assert forall|j: int| 0 <= j < i - 1 implies (#[trigger] rest[j]).0@ != t by {
            assert(rest[j] == s[j + 1]);
        }
        if i < s.len() {
            assert(rest[i - 1] == s[i]);
        }
        lemma_kind_of(rest, t, i - 1);
    }
}

/// Asking for the file that is written to settles the config directories only
/// where it comes to them.
pub proof fn law_effective_settles(v: LoaderView, files: Seq<Seq<char>>, env: Env)
    ensures
        files.len() > 0 ==> after_effective(v, files, env) == v,
        files.len() == 0 ==> after_effective(v, files, env) == (LoaderView {
            config_dirs: Some(config_dirs_in(v, env)),
            ..v
        }),
{
}

} // verus!

//! What starting up comes to: the command line, the configuration and the
//! places that are settled on, call by call.
use crate::args::{
    files_at, no_args, Args, ParsedArgs, ParsedView,
};
use crate::config::{raw_views, Config, ConfigRaw};
use crate::disk::Disk;
use crate::dry_run::{
    create_dir_all, enable, is_enabled, record_action, record_read_config,
    record_synthesized_editor, record_synthesized_languages, record_synthesized_theme,
    report_lines, DryRun, LanguagesSummary, ReadOutcome, ReportView,
};
use crate::laws::command_line::{
    law_file_at_end, names_file, open_ended, without_end,
};
use crate::laws::places::{law_config_dirs_ranked, law_explicit_files_ranked, meant_by};
use crate::laws::settings::law_keys_of_all_layers;
use crate::layers::{layer_outcome, ConfigFile, ConfigLoadError, FileText};
use crate::loader::{
    cache_dir, config_dirs, config_file, data_dir, initialize_config_dirs,
    initialize_config_file, initialize_log_file, log_file, set_runtime_dir_override, Env, Loader,
};
use crate::path::{joined, path_text, path_texts, PathBuf};
use crate::text::texts;
use crate::value::{TomlValue, Tree};
use vstd::prelude::*;

verus! {

// ── The command line ─────────────────────────────────────────────────────
/// A file at the end of a command line is one more file, and what the options
/// before it say stands.
pub proof fn law_file_added(
    argv: &Vec<String>,
    longer: &Vec<String>,
    disk: &Disk,
    r: Result<ParsedArgs, String>,
    s: Result<ParsedArgs, String>,
)
    requires
        call_ensures(Args::parse_args, (argv, disk), r),
        call_ensures(Args::parse_args, (longer, disk), s),
        r is Ok,
        argv@.len() > 0,
        longer@.len() == argv@.len() + 1,
        longer@.drop_last() == argv@,
        without_end(texts(argv@).skip(1)),
        !open_ended(texts(argv@).skip(1)),
        names_file(longer@.last()@),
    ensures
        s is Ok,
        s->Ok_0.args.split == r->Ok_0.args.split,
        s->Ok_0.args.verbosity == r->Ok_0.args.verbosity,
        s->Ok_0.args@ == r->Ok_0.args@,
        s->Ok_0.line_number == r->Ok_0.line_number,
        s->Ok_0.file_args@.len() == r->Ok_0.file_args@.len() + 1,
{
    let v = ParsedView { args: no_args(), line_number: 0, file_args: Seq::empty() };
    let front = texts(argv@).skip(1);
    let a = longer@.last()@;
    law_file_at_end(v, front, a, *disk);
    assert(texts(longer@).skip(1) =~= front.push(a)) by {
        assert forall|i: int| 0 <= i < argv@.len() implies longer@[i] == argv@[i] by {
            assert(longer@.drop_last()[i] == argv@[i]);
        }
    }
    let (p, q) = (r->Ok_0, s->Ok_0);
    assert(q@.file_args.len() == q.file_args@.len());
    assert(p@.file_args.len() == p.file_args@.len());
}

/// The session of the workspace is restored exactly if no file is given.
pub proof fn law_restored_without_files(
    p: ParsedArgs,
    resolved: Vec<PathBuf>,
    args: &Args,
    r: bool,
)
    requires
        resolved@.len() == p.file_args@.len(),
        call_ensures(ParsedArgs::resolve, (p, resolved), *args),
        call_ensures(Args::restores_session, (args,), r),
    ensures
        r <==> p.file_args@.len() == 0,
        args.split == p.args.split,
        args.strict == p.args.strict,
        args.dry_run == p.args.dry_run,
{
    let names = Seq::new(resolved@.len(), |i: int| resolved@[i]@);
    lemma_files_at(names, p@.file_args);
}

/// Where there are files, some are listed.
proof fn lemma_files_at(resolved: Seq<Seq<char>>, placed: Seq<(Seq<char>, nat, nat)>)
    requires
        resolved.len() == placed.len(),
    ensures
        files_at(resolved, placed).len() == 0 <==> resolved.len() == 0,
{
}

// ── The configuration ────────────────────────────────────────────────────
/// What one more layer on top does: its key bindings go on top of the others,
/// its theme stands, and without an editor's table of its own it leaves that
/// of the others; none of these depends on the rest of the layer.
pub proof fn law_layer_on_top(
    below: Vec<ConfigRaw>,
    layers: Vec<ConfigRaw>,
    r: Config,
    s: Config,
)
    requires
        call_ensures(Config::merge_layers, (below,), r),
        call_ensures(Config::merge_layers, (layers,), s),
        layers@.len() == below@.len() + 1,
        layers@.drop_last() == below@,
    ensures
        ({
            let top = layers@.last();
            &&& match top.keys {
                Some(k) => s.keys@.len() == r.keys@.len() + 1 && s.keys@.last()@ == k@,
                None => s.keys@.len() == r.keys@.len(),
            }
            &&& forall|i: int|
                0 <= i < r.keys@.len() ==> (#[trigger] s.keys@[i])@ == r.keys@[i]@
            &&& match top.theme {
                Some(t) => s.theme is Some && s.theme->0@ == t@,
                None => s@.theme == r@.theme,
            }
            &&& top.editor is None ==> s@.editor == r@.editor
            &&& r.editor is None && top.editor is Some ==> s.editor is Some && s.editor->0@
                == top.editor->0@
        }),
{
    let low = raw_views(below@);
    let all = raw_views(layers@);
    assert(all.drop_last() =~= low) by {
        assert forall|i: int| 0 <= i < below@.len() implies layers@[i] == below@[i] by {
            assert(layers@.drop_last()[i] == below@[i]);
        }
    }
    law_keys_of_all_layers(all);
    let top = all.last();
    assert(top == layers@.last()@);
    assert(s@.keys.len() == s.keys@.len() && r@.keys.len() == r.keys@.len());
    assert forall|i: int| 0 <= i < r.keys@.len() implies (#[trigger] s.keys@[i])@ == r.keys@[i]@ by {
        assert(s@.keys[i] == s.keys@[i]@);
        assert(r@.keys[i] == r.keys@[i]@);
    }
    if top.keys is Some {
        assert(s@.keys.last() == s.keys@.last()@);
    }
}

/// What is told of a file that was read for a layer: that it is not there,
/// that it was loaded, or what went wrong.
pub proof fn law_layer_told(file: &ConfigFile, failure: &Option<ConfigLoadError>, r: ReadOutcome)
    requires
        call_ensures(layer_outcome, (file, failure), r),
    ensures
        r is NotFound <==> file.text is Missing,
        r is Loaded <==> file.text is Read && *failure is None,
        file.text matches FileText::Failed(m) ==> r is Error && r->Error_0@ == m@,
        file.text is Read ==> (*failure matches Some(ConfigLoadError::BadConfig(m)) ==> r is Error
            && r->Error_0@ == m@),
{
}

/// The setting by which workspaces are trusted is the one in the editor's
/// table.
pub proof fn law_trust_read(c: &Config, r: Option<TomlValue>)
    requires
        call_ensures(Config::workspace_trust, (c,), r),
    ensures
        r is Some <==> (c@.editor matches Some(Tree::Table(m)) && m.contains_key(
            "workspace-trust"@,
        )),
        r matches Some(v) ==> (c@.editor matches Some(Tree::Table(m)) ==> v@
            == m["workspace-trust"@]),
{
}

// ── Dry runs ─────────────────────────────────────────────────────────────
/// A dry run is one that was enabled; enabling it starts a report of nothing,
/// and its directories are not made.
pub proof fn law_dry_run_enabled(
    fresh: DryRun,
    before: bool,
    t: &mut DryRun,
    after: bool,
    path: &PathBuf,
    disk: &Disk,
    u: &mut DryRun,
    made: bool,
)
    requires
        call_ensures(DryRun::new, (), fresh),
        call_ensures(is_enabled, (&fresh,), before),
        call_ensures(enable, (t,), ()),
        call_ensures(is_enabled, (&*final(t),), after),
        call_ensures(create_dir_all, (u, path, disk), made),
    ensures
        !before,
        fresh.report is None,
        after,
        final(t).report is Some,
        final(t).report->0.actions@.len() == 0,
        final(t).report->0.read_configs@.len() == 0,
        final(t).report->0.synthesized_theme is None,
        made <==> !old(u).enabled,
        final(u).enabled == old(u).enabled,
        !old(u).enabled ==> final(u)@ == old(u)@,
{
}

/// An action that is recorded comes last in the report, if there is one, and
/// changes nothing else of it.
pub proof fn law_action_recorded(t: &mut DryRun, context: String, detail: String)
    requires
        call_ensures(record_action, (t, context, detail), ()),
    ensures
        final(t).enabled == old(t).enabled,
        old(t).report is None ==> final(t).report is None,
        old(t).report matches Some(r) ==> final(t).report is Some && final(t).report->0@ == (
        ReportView { actions: r.actions@.push((context, detail)), ..r@ }),
{
}

/// A file that was read is recorded behind those read before.
pub proof fn law_read_recorded(t: &mut DryRun, path: PathBuf, outcome: ReadOutcome)
    requires
        call_ensures(record_read_config, (t, path, outcome), ()),
    ensures
        final(t).enabled == old(t).enabled,
        old(t).report is None ==> final(t).report is None,
        old(t).report matches Some(r) ==> final(t).report is Some && final(t).report->0@ == (
        ReportView { read_configs: r.read_configs@.push((path, outcome)), ..r@ }),
{
}

/// What was merged is recorded, each part in its place.
pub proof fn law_merged_recorded(
    t: &mut DryRun,
    editor: String,
    u: &mut DryRun,
    theme: String,
    w: &mut DryRun,
    languages: LanguagesSummary,
)
    requires
        call_ensures(record_synthesized_editor, (t, editor), ()),
        *old(u) == *final(t),
        call_ensures(record_synthesized_theme, (u, theme), ()),
        *old(w) == *final(u),
        call_ensures(record_synthesized_languages, (w, languages), ()),
    ensures
        final(w).enabled == old(t).enabled,
        old(t).report is None ==> final(w).report is None,
        old(t).report matches Some(r) ==> final(w).report is Some && final(w).report->0@ == (
        ReportView {
            synthesized_editor: Some(editor),
            synthesized_theme: Some(theme),
            synthesized_languages: Some(languages),
            ..r@
        }),
{
}

/// The report is given out once: after that it is as if nothing had been
/// recorded.
pub proof fn law_report_given_once(
    t: &mut DryRun,
    searched: &Vec<(String, Vec<PathBuf>)>,
    disk: &Disk,
    r: Vec<String>,
    u: &mut DryRun,
    s: Vec<String>,
    fresh: &mut DryRun,
    bare: Vec<String>,
    started: &mut DryRun,
)
    requires
        call_ensures(report_lines, (t, searched, disk), r),
        *old(u) == *final(t),
        call_ensures(report_lines, (u, searched, disk), s),
        call_ensures(enable, (started,), ()),
        *old(fresh) == *final(started),
        call_ensures(report_lines, (fresh, searched, disk), bare),
    ensures
        final(t).report is None,
        final(t).enabled == old(t).enabled,
        texts(s@) == texts(bare@),
{
}

// ── Places ───────────────────────────────────────────────────────────────
/// At first nothing is settled.
pub proof fn law_nothing_settled(r: Loader)
    requires
        call_ensures(Loader::new, (), r),
    ensures
        r.runtime_dirs is None,
        r.runtime_dir_override is None,
        r.config_dirs is None,
        r.config_file_overrides is None,
        r.lang_config_file_overrides is None,
        r.log_file is None,
{
}

/// Caches and data have directories of their own.
pub proof fn law_own_directories(env: &Env, a: PathBuf, b: PathBuf)
    requires
        call_ensures(cache_dir, (env,), a),
        call_ensures(data_dir, (env,), b),
    ensures
        a@ == joined(env.cache_home@, "helix"@),
        b@ == joined(env.data_home@, "helix"@),
{
}

/// The config directories that are settled on first stand, whatever is
/// specified later; and they begin with the one that was specified.
pub proof fn law_first_config_dirs_stand(
    a: &mut Loader,
    specified: Option<PathBuf>,
    env: &Env,
    dry: &mut DryRun,
    disk: &Disk,
    made: Option<PathBuf>,
    b: &mut Loader,
    later: Option<PathBuf>,
    other: &Env,
    dry_later: &mut DryRun,
    made_later: Option<PathBuf>,
    c: &mut Loader,
    dirs: Vec<PathBuf>,
)
    requires
        call_ensures(initialize_config_dirs, (a, specified, env, dry, disk), made),
        *old(b) == *final(a),
        call_ensures(initialize_config_dirs, (b, later, other, dry_later, disk), made_later),
        *old(c) == *final(b),
        call_ensures(config_dirs, (c, other), dirs),
    ensures
        old(a).config_dirs matches Some(d) ==> path_texts(dirs@) == path_texts(d@),
        old(a).config_dirs is None ==> dirs@.len() > 0 && dirs@.last()@ == joined(
            env.config_home@,
            "helix"@,
        ),
        old(a).config_dirs is None ==> (specified matches Some(p) ==> dirs@[0]@ == meant_by(
            p@,
            *env,
        )),
        final(c)@.log_file == old(a)@.log_file,
        final(c)@.config_file_overrides == old(a)@.config_file_overrides,
        final(c)@.runtime_dirs == old(a)@.runtime_dirs,
{
    law_config_dirs_ranked(path_text(specified), *env);
    assert(path_texts(dirs@).len() == dirs@.len());
    if old(a).config_dirs is None {
        assert(path_texts(dirs@)[0] == dirs@[0]@);
        assert(path_texts(dirs@).last() == dirs@.last()@);
    }
}

/// The config file that was specified is the one that is used, unless the
/// config files were settled on before.
pub proof fn law_specified_config_file(
    a: &mut Loader,
    specified: Option<PathBuf>,
    env: &Env,
    dry: &mut DryRun,
    disk: &Disk,
    made: Option<PathBuf>,
    b: &mut Loader,
    other: &Env,
    r: PathBuf,
)
    requires
        call_ensures(initialize_config_file, (a, specified, env, dry, disk), made),
        *old(b) == *final(a),
        call_ensures(config_file, (b, other), r),
    ensures
        old(a).config_file_overrides is None ==> (specified matches Some(p) ==> r@ == meant_by(
            p@,
            *env,
        )),
        old(a).config_file_overrides is None && specified is None ==> (env.config_file matches Some(
            p,
        ) ==> r@ == meant_by(p@, *env)),
        old(a).config_file_overrides matches Some(f) ==> (f@.len() > 0 ==> r@ == f@.last()@),
{
    law_explicit_files_ranked(path_text(specified), *env);
    if let Some(f) = old(a).config_file_overrides {
        assert(path_texts(f@).len() == f@.len());
        if f@.len() > 0 {
            assert(path_texts(f@).last() == f@.last()@);
        }
    }
}

/// The log file that was specified first is the one that is used; without any
/// it lies in the cache.
pub proof fn law_first_log_file_stands(
    a: &mut Loader,
    specified: Option<PathBuf>,
    env: &Env,
    dry: &mut DryRun,
    disk: &Disk,
    made: Option<PathBuf>,
    r: PathBuf,
)
    requires
        call_ensures(initialize_log_file, (a, specified, env, dry, disk), made),
        call_ensures(log_file, (&*final(a),), r),
    ensures
        old(a).log_file matches Some(f) ==> r@ == f@,
        old(a).log_file is None ==> (specified matches Some(f) ==> r@ == f@),
        old(a).log_file is None && specified is None ==> r@ == joined(
            joined(env.cache_home@, "helix"@),
            "helix.log"@,
        ),
        final(a)@.config_dirs == old(a)@.config_dirs,
{
}

/// The runtime directory of the command line is settled once.
pub proof fn law_first_runtime_dir_stands(
    a: &mut Loader,
    dir: Option<PathBuf>,
    env: &Env,
    dry: &mut DryRun,
    disk: &Disk,
    made: Option<PathBuf>,
)
    requires
        call_ensures(set_runtime_dir_override, (a, dir, env, dry, disk), made),
    ensures
        old(a).runtime_dir_override is Some ==> final(a)@.runtime_dir_override
            == old(a)@.runtime_dir_override,
        old(a).runtime_dir_override is None ==> (dir matches Some(p)
            ==> final(a)@.runtime_dir_override == Some(Some(meant_by(p@, *env)))),
        old(a).runtime_dir_override is None && dir is None ==> final(a)@.runtime_dir_override
            == Some(None::<Seq<char>>),
        final(a)@.config_dirs == old(a)@.config_dirs,
        final(a)@.runtime_dirs == old(a)@.runtime_dirs,
{
}

} // verus!

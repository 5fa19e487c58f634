//! Where configuration, runtime files and logs are found.
use crate::disk::Disk;
use crate::dry_run::{
    create_dir_all, dir_created, law_missing_dirs_recorded_once, listed, DryRun, DryRunView,
};
use crate::normalize::{normalize_some, normalized, normalized_some};
use crate::path::{ancestors, joined, parent, path_text, path_texts, PathBuf};
use crate::text::same;
use vstd::prelude::*;

verus! {

/// What the process was started with.
#[derive(Debug)]
pub struct Env {
    /// `HELIX_CONFIG_DIR`
    pub config_dir: Option<PathBuf>,
    /// `HELIX_CONFIG_FILE`
    pub config_file: Option<PathBuf>,
    /// `HELIX_LANGUAGES_FILE`
    pub languages_file: Option<PathBuf>,
    /// `HELIX_RUNTIME`
    pub runtime: Option<PathBuf>,
    /// `CARGO_MANIFEST_DIR`
    pub cargo_manifest_dir: Option<PathBuf>,
    /// `HELIX_DEFAULT_RUNTIME` at build time
    pub default_runtime: Option<PathBuf>,
    /// The executable, with symbolic links resolved
    pub executable: PathBuf,
    /// The home directory, which `~` stands for
    pub home: Option<PathBuf>,
    /// The directory of the user's configuration
    pub config_home: PathBuf,
    /// The directory of the user's caches
    pub cache_home: PathBuf,
    /// The directory of the user's data
    pub data_home: PathBuf,
    /// The working directory
    pub current_dir: PathBuf,
}

/// Whether the directories that the runtime is looked for beside have
/// parents.
pub open spec fn env_valid(env: Env) -> bool {
    &&& env.cargo_manifest_dir matches Some(dir) ==> parent(dir@) is Some
    &&& parent(env.executable@) is Some
}

/// What was settled so far. Each value is settled once, by an argument or on
/// first use.
#[derive(Debug)]
pub struct Loader {
    pub runtime_dirs: Option<Vec<PathBuf>>,
    pub runtime_dir_override: Option<Option<PathBuf>>,
    pub config_dirs: Option<Vec<PathBuf>>,
    pub config_file_overrides: Option<Vec<PathBuf>>,
    pub lang_config_file_overrides: Option<Vec<PathBuf>>,
    pub log_file: Option<PathBuf>,
}

/// What was settled, as a mathematical value.
pub struct LoaderView {
    pub runtime_dirs: Option<Seq<Seq<char>>>,
    pub runtime_dir_override: Option<Option<Seq<char>>>,
    pub config_dirs: Option<Seq<Seq<char>>>,
    pub config_file_overrides: Option<Seq<Seq<char>>>,
    pub lang_config_file_overrides: Option<Seq<Seq<char>>>,
    pub log_file: Option<Seq<char>>,
}

/// The texts of an optional list of paths.
pub open spec fn texts_of(p: Option<Vec<PathBuf>>) -> Option<Seq<Seq<char>>> {
    match p {
        Some(p) => Some(path_texts(p@)),
        None => None,
    }
}

impl View for Loader {
    type V = LoaderView;

    open spec fn view(&self) -> LoaderView {
        LoaderView {
            runtime_dirs: texts_of(self.runtime_dirs),
            runtime_dir_override: match self.runtime_dir_override {
                Some(p) => Some(path_text(p)),
                None => None,
            },
            config_dirs: texts_of(self.config_dirs),
            config_file_overrides: texts_of(self.config_file_overrides),
            lang_config_file_overrides: texts_of(self.lang_config_file_overrides),
            log_file: path_text(self.log_file),
        }
    }
}

impl Loader {
    /// Nothing is settled yet.
    pub fn new() -> (r: Loader)
        ensures
            r@ == (LoaderView {
                runtime_dirs: None,
                runtime_dir_override: None,
                config_dirs: None,
                config_file_overrides: None,
                lang_config_file_overrides: None,
                log_file: None,
            }),
    {
        Loader {
            runtime_dirs: None,
            runtime_dir_override: None,
            config_dirs: None,
            config_file_overrides: None,
            lang_config_file_overrides: None,
            log_file: None,
        }
    }
}

/// The value that was settled, or else the one to settle on.
pub open spec fn settled<A>(old: Option<A>, new: A) -> A {
    match old {
        Some(a) => a,
        None => new,
    }
}

/// At most one path, as a list.
pub open spec fn at_most_one(p: Option<Seq<char>>) -> Seq<Seq<char>> {
    match p {
        Some(t) => seq![t],
        None => Seq::empty(),
    }
}

/// Adds a path, if there is one.
fn push_some(out: &mut Vec<PathBuf>, path: &Option<PathBuf>)
    ensures
        path_texts(final(out)@) == path_texts(old(out)@) + at_most_one(path_text(*path)),
{
    let ghost before = out@;
    if let Some(p) = path {
        out.push(p.clone());
    }
    assert(path_texts(out@) =~= path_texts(before) + at_most_one(path_text(*path)));
}

/// Copies a list of paths.
fn copy(paths: &Vec<PathBuf>) -> (r: Vec<PathBuf>)
    ensures
        path_texts(r@) == path_texts(paths@),
{
    let mut out: Vec<PathBuf> = Vec::new();
    let mut i: usize = 0;
    while i < paths.len()
        invariant
            i <= paths@.len(),
            out@.len() == i,
            forall|k: int| 0 <= k < i ==> (#[trigger] out@[k])@ == paths@[k]@,
        decreases paths@.len() - i,
    {
        out.push(paths[i].clone());
        i += 1;
    }
    assert(path_texts(out@) =~= path_texts(paths@));
    out
}

/// A path that a user wrote, with `~` expanded and without `.` and `..`.
pub open spec fn as_meant(t: Option<Seq<char>>, env: Env) -> Option<Seq<char>> {
    normalized_some(t, path_text(env.home))
}

/// Normalizes a path that a user wrote.
fn meant(path: &Option<PathBuf>, env: &Env) -> (r: Option<PathBuf>)
    ensures
        path_text(r) == as_meant(path_text(*path), *env),
{
    normalize_some(path, &env.home)
}

// ── Creating directories ─────────────────────────────────────────────────
/// The directory that is to be made where `t` should be, if it is not there
/// and this is no dry run.
pub open spec fn dir_to_make(v: DryRunView, t: Seq<char>, disk: Disk) -> Option<Seq<char>> {
    if v.enabled || disk.present(t) {
        None
    } else {
        Some(t)
    }
}

/// Decides on a directory that should be there.
fn ensure_dir(dry: &mut DryRun, dir: &PathBuf, disk: &Disk) -> (r: Option<PathBuf>)
    ensures
        path_text(r) == dir_to_make(old(dry)@, dir@, *disk),
        final(dry)@ == dir_created(old(dry)@, dir@, *disk),
{
    if disk.is_present(dir) {
        return None;
    }
    if create_dir_all(dry, dir, disk) {
        Some(dir.clone())
    } else {
        None
    }
}

/// The same for a directory that there may be. The empty path stands for the
/// current directory, which needs no making.
pub open spec fn some_dir_to_make(v: DryRunView, t: Option<Seq<char>>, disk: Disk) -> Option<
    Seq<char>,
> {
    match t {
        Some(t) => if t.len() == 0 {
            None
        } else {
            dir_to_make(v, t, disk)
        },
        None => None,
    }
}

/// The state of a dry run after a directory was asked for that there may be.
pub open spec fn some_dir_created(v: DryRunView, t: Option<Seq<char>>, disk: Disk) -> DryRunView {
    match t {
        Some(t) => if t.len() == 0 {
            v
        } else {
            dir_created(v, t, disk)
        },
        None => v,
    }
}

/// Decides on a directory that should be there, if any.
fn ensure_some_dir(dry: &mut DryRun, dir: &Option<PathBuf>, disk: &Disk) -> (r: Option<PathBuf>)
    ensures
        path_text(r) == some_dir_to_make(old(dry)@, path_text(*dir), *disk),
        final(dry)@ == some_dir_created(old(dry)@, path_text(*dir), *disk),
{
    match dir {
        Some(dir) => {
            if same(dir.text.as_str(), "") {
                proof {
                    reveal_strlit("");
                }
                return None;
            }
            assert(dir@.len() > 0) by {
                reveal_strlit("");
                if dir@.len() == 0 {
                    assert(dir@ =~= ""@);
                }
            }
            ensure_dir(dry, dir, disk)
        },
        None => None,
    }
}

/// The directory that is to be made so that the file `t` can be written.
pub open spec fn parent_to_make(v: DryRunView, t: Seq<char>, disk: Disk) -> Option<Seq<char>> {
    some_dir_to_make(v, parent(t), disk)
}

/// The state of a dry run after the directory of the file `t` was asked for.
pub open spec fn parent_created(v: DryRunView, t: Seq<char>, disk: Disk) -> DryRunView {
    some_dir_created(v, parent(t), disk)
}

/// Decides on the directory of a file that is to be written.
fn ensure_parent_dir(dry: &mut DryRun, path: &PathBuf, disk: &Disk) -> (r: Option<PathBuf>)
    ensures
        path_text(r) == parent_to_make(old(dry)@, path@, *disk),
        final(dry)@ == parent_created(old(dry)@, path@, *disk),
{
    ensure_some_dir(dry, &path.parent(), disk)
}

// ── Config directories ───────────────────────────────────────────────────
/// The system default config directory.
pub open spec fn system_config_dir_of(env: Env) -> Seq<char> {
    joined(env.config_home@, "helix"@)
}

/// Config directories from highest to lowest priority: the one that was
/// specified, that of the environment, the system default.
pub open spec fn config_dirs_of(specified: Option<Seq<char>>, env: Env) -> Seq<Seq<char>> {
    at_most_one(as_meant(specified, env)) + at_most_one(as_meant(path_text(env.config_dir), env))
        + seq![system_config_dir_of(env)]
}

/// The config directories that are, or would now be, settled on.
pub open spec fn config_dirs_in(v: LoaderView, env: Env) -> Seq<Seq<char>> {
    settled(v.config_dirs, config_dirs_of(None, env))
}

/// `v` with the config directories settled.
pub open spec fn with_config_dirs(v: LoaderView, env: Env) -> LoaderView {
    LoaderView { config_dirs: Some(config_dirs_in(v, env)), ..v }
}

/// The system default config directory (e.g. `$XDG_CONFIG_HOME/helix` on
/// Linux).
pub fn system_config_dir(env: &Env) -> (r: PathBuf)
    ensures
        r@ == system_config_dir_of(*env),
{
    env.config_home.join("helix")
}

fn prioritize_config_dirs(specified_dir: &Option<PathBuf>, env: &Env) -> (r: Vec<PathBuf>)
    ensures
        path_texts(r@) == config_dirs_of(path_text(*specified_dir), *env),
{
    let mut dirs: Vec<PathBuf> = Vec::new();
    push_some(&mut dirs, &meant(specified_dir, env));
    push_some(&mut dirs, &meant(&env.config_dir, env));
    let ghost before = dirs@;
    let system = system_config_dir(env);
    dirs.push(system);
    assert(path_texts(dirs@) =~= config_dirs_of(path_text(*specified_dir), *env)) by {
        assert(path_texts(before) =~= at_most_one(as_meant(path_text(*specified_dir), *env))
            + at_most_one(as_meant(path_text(env.config_dir), *env)));
    }
    dirs
}

/// Initialize the config directory chain from the `--config-dir` CLI argument.
/// A directory that does not exist yet is handed back to be created.
///
/// See [`config_dirs`] for the priority order.
pub fn initialize_config_dirs(
    loader: &mut Loader,
    specified_dir: Option<PathBuf>,
    env: &Env,
    dry: &mut DryRun,
    disk: &Disk,
) -> (r: Option<PathBuf>)
    ensures
        final(loader)@ == (LoaderView {
            config_dirs: Some(
                settled(old(loader)@.config_dirs, config_dirs_of(path_text(specified_dir), *env)),
            ),
            ..old(loader)@
        }),
        path_text(r) == some_dir_to_make(
            old(dry)@,
            as_meant(path_text(specified_dir), *env),
            *disk,
        ),
        final(dry)@ == some_dir_created(
            old(dry)@,
            as_meant(path_text(specified_dir), *env),
            *disk,
        ),
{
    let dirs = prioritize_config_dirs(&specified_dir, env);
    if loader.config_dirs.is_none() {
        loader.config_dirs = Some(dirs);
    }
    ensure_some_dir(dry, &meant(&specified_dir, env), disk)
}

/// Config directories ordered from highest to lowest priority:
///
/// 1. the `--config-dir` command line argument
/// 2. the `HELIX_CONFIG_DIR` environment variable
/// 3. the system default (e.g. `$XDG_CONFIG_HOME/helix` on Linux)
///
/// Config files (`config.toml`, `languages.toml`, `themes/`, `runtime/`) missing from a
/// higher-priority directory fall back to lower-priority ones. The system default is always
/// present, so the list is never empty.
pub fn config_dirs(loader: &mut Loader, env: &Env) -> (r: Vec<PathBuf>)
    ensures
        path_texts(r@) == config_dirs_in(old(loader)@, *env),
        final(loader)@ == with_config_dirs(old(loader)@, *env),
{
    if loader.config_dirs.is_none() {
        loader.config_dirs = Some(prioritize_config_dirs(&None, env));
    }
    match &loader.config_dirs {
        Some(dirs) => copy(dirs),
        None => Vec::new(),
    }
}

/// Whether the config directories were settled on by [`config_dirs`] or
/// [`initialize_config_dirs`], if they were: there is at least one.
pub open spec fn config_dirs_valid(v: LoaderView) -> bool {
    v.config_dirs matches Some(dirs) ==> dirs.len() > 0
}

/// The highest-priority config directory. Files created by helix (e.g. via `:config-open`)
/// are placed here.
pub fn config_dir(loader: &mut Loader, env: &Env) -> (r: PathBuf)
    requires
        config_dirs_valid(old(loader)@),
    ensures
        r@ == config_dirs_in(old(loader)@, *env)[0],
        final(loader)@ == with_config_dirs(old(loader)@, *env),
{
    let dirs = config_dirs(loader, env);
    assert(path_texts(dirs@).len() == dirs@.len());
    dirs[0].clone()
}

// ── Config files ─────────────────────────────────────────────────────────
/// Explicitly specified config files from lowest to highest priority: that of
/// the environment, the one that was specified.
pub open spec fn config_files_of(specified: Option<Seq<char>>, env: Env) -> Seq<Seq<char>> {
    at_most_one(as_meant(path_text(env.config_file), env)) + at_most_one(as_meant(specified, env))
}

/// The same for language config files.
pub open spec fn lang_files_of(specified: Option<Seq<char>>, env: Env) -> Seq<Seq<char>> {
    at_most_one(as_meant(path_text(env.languages_file), env)) + at_most_one(
        as_meant(specified, env),
    )
}

/// The explicit config files that are, or would now be, settled on.
pub open spec fn config_files_in(v: LoaderView, env: Env) -> Seq<Seq<char>> {
    settled(v.config_file_overrides, config_files_of(None, env))
}

/// The explicit language config files that are, or would now be, settled on.
pub open spec fn lang_files_in(v: LoaderView, env: Env) -> Seq<Seq<char>> {
    settled(v.lang_config_file_overrides, lang_files_of(None, env))
}

/// The config file with the highest priority: the last explicit one, or
/// `name` in the first config directory.
pub open spec fn effective_file(
    overrides: Seq<Seq<char>>,
    dirs: Seq<Seq<char>>,
    name: Seq<char>,
) -> Seq<char> {
    if overrides.len() > 0 {
        overrides.last()
    } else {
        joined(dirs[0], name)
    }
}

fn override_chain(from_env: &Option<PathBuf>, specified_file: &Option<PathBuf>) -> (r: Vec<PathBuf>)
    ensures
        path_texts(r@) == at_most_one(path_text(*from_env)) + at_most_one(path_text(*specified_file)),
{
    let mut files: Vec<PathBuf> = Vec::new();
    push_some(&mut files, from_env);
    push_some(&mut files, specified_file);
    assert(path_texts(files@) =~= at_most_one(path_text(*from_env)) + at_most_one(
        path_text(*specified_file),
    ));
    files
}

fn config_file_override_chain(specified_file: &Option<PathBuf>, env: &Env) -> (r: Vec<PathBuf>)
    ensures
        path_texts(r@) == config_files_of(path_text(*specified_file), *env),
{
    override_chain(&meant(&env.config_file, env), &meant(specified_file, env))
}

fn lang_config_file_override_chain(specified_file: &Option<PathBuf>, env: &Env) -> (r: Vec<PathBuf>)
    ensures
        path_texts(r@) == lang_files_of(path_text(*specified_file), *env),
{
    override_chain(&meant(&env.languages_file, env), &meant(specified_file, env))
}

/// Whether the config directories come into play for the effective file, and
/// are thereby settled.
pub open spec fn after_effective(v: LoaderView, overrides: Seq<Seq<char>>, env: Env) -> LoaderView {
    if overrides.len() > 0 {
        v
    } else {
        with_config_dirs(v, env)
    }
}

fn effective_config_file(overrides: &Vec<PathBuf>, name: &str, loader: &mut Loader, env: &Env) -> (r:
    PathBuf)
    requires
        config_dirs_valid(old(loader)@),
    ensures
        r@ == effective_file(path_texts(overrides@), config_dirs_in(old(loader)@, *env), name@),
        final(loader)@ == after_effective(old(loader)@, path_texts(overrides@), *env),
{
    assert(path_texts(overrides@).len() == overrides@.len());
    if overrides.len() > 0 {
        overrides[overrides.len() - 1].clone()
    } else {
        config_dir(loader, env).join(name)
    }
}

/// Initialize the config file override chain from the `--config` CLI argument.
/// The directory of the file with the highest priority is handed back to be
/// created, if it does not exist.
///
/// See [`config_file_overrides`] for the priority order.
pub fn initialize_config_file(
    loader: &mut Loader,
    specified_file: Option<PathBuf>,
    env: &Env,
    dry: &mut DryRun,
    disk: &Disk,
) -> (r: Option<PathBuf>)
    requires
        config_dirs_valid(old(loader)@),
    ensures
        ({
            let files = config_files_of(path_text(specified_file), *env);
            let file = effective_file(
                files,
                config_dirs_in(old(loader)@, *env),
                "config.toml"@,
            );
            &&& final(loader)@ == (LoaderView {
                config_file_overrides: Some(settled(old(loader)@.config_file_overrides, files)),
                ..after_effective(old(loader)@, files, *env)
            })
            &&& path_text(r) == parent_to_make(old(dry)@, file, *disk)
            &&& final(dry)@ == parent_created(old(dry)@, file, *disk)
        }),
{
    let overrides = config_file_override_chain(&specified_file, env);
    let file = effective_config_file(&overrides, "config.toml", loader, env);
    let made = ensure_parent_dir(dry, &file, disk);
    if loader.config_file_overrides.is_none() {
        loader.config_file_overrides = Some(overrides);
    }
    made
}

/// Initialize the language config file override chain from the `--languages` CLI argument.
///
/// See [`lang_config_file_overrides`] for the priority order.
pub fn initialize_lang_config_files(
    loader: &mut Loader,
    specified_file: Option<PathBuf>,
    env: &Env,
)
    ensures
        final(loader)@ == (LoaderView {
            lang_config_file_overrides: Some(
                settled(
                    old(loader)@.lang_config_file_overrides,
                    lang_files_of(path_text(specified_file), *env),
                ),
            ),
            ..old(loader)@
        }),
{
    let overrides = lang_config_file_override_chain(&specified_file, env);
    if loader.lang_config_file_overrides.is_none() {
        loader.lang_config_file_overrides = Some(overrides);
    }
}

/// Explicitly specified config files ordered from lowest to highest priority:
///
/// 1. the `HELIX_CONFIG_FILE` environment variable
/// 2. the `--config` command line argument
///
/// These are merged *on top of* every `config.toml` found in [`config_dirs`] and on top of
/// the workspace's `.helix/config.toml`, so an explicitly specified key always wins.
pub fn config_file_overrides(loader: &mut Loader, env: &Env) -> (r: Vec<PathBuf>)
    ensures
        path_texts(r@) == config_files_in(old(loader)@, *env),
        final(loader)@ == (LoaderView {
            config_file_overrides: Some(config_files_in(old(loader)@, *env)),
            ..old(loader)@
        }),
{
    if loader.config_file_overrides.is_none() {
        loader.config_file_overrides = Some(config_file_override_chain(&None, env));
    }
    match &loader.config_file_overrides {
        Some(files) => copy(files),
        None => Vec::new(),
    }
}

/// Explicitly specified language config files ordered from lowest to highest priority:
/// `HELIX_LANGUAGES_FILE`, then `--languages`.
///
/// These are merged *on top of* every `languages.toml` found in [`config_dirs`] and on top
/// of the workspace's `.helix/languages.toml`.
pub fn lang_config_file_overrides(loader: &mut Loader, env: &Env) -> (r: Vec<PathBuf>)
    ensures
        path_texts(r@) == lang_files_in(old(loader)@, *env),
        final(loader)@ == (LoaderView {
            lang_config_file_overrides: Some(lang_files_in(old(loader)@, *env)),
            ..old(loader)@
        }),
{
    if loader.lang_config_file_overrides.is_none() {
        loader.lang_config_file_overrides = Some(lang_config_file_override_chain(&None, env));
    }
    match &loader.lang_config_file_overrides {
        Some(files) => copy(files),
        None => Vec::new(),
    }
}

/// The highest-priority config file: the last entry of [`config_file_overrides`], or
/// `config.toml` inside the highest-priority config directory.
pub fn config_file(loader: &mut Loader, env: &Env) -> (r: PathBuf)
    requires
        config_dirs_valid(old(loader)@),
    ensures
        ({
            let files = config_files_in(old(loader)@, *env);
            &&& r@ == effective_file(
                files,
                config_dirs_in(old(loader)@, *env),
                "config.toml"@,
            )
            &&& final(loader)@ == after_effective(
                LoaderView { config_file_overrides: Some(files), ..old(loader)@ },
                files,
                *env,
            )
        }),
{
    let overrides = config_file_overrides(loader, env);
    effective_config_file(&overrides, "config.toml", loader, env)
}

/// The highest-priority language config file: the last entry of
/// [`lang_config_file_overrides`], or `languages.toml` inside the highest-priority config
/// directory.
pub fn lang_config_file(loader: &mut Loader, env: &Env) -> (r: PathBuf)
    requires
        config_dirs_valid(old(loader)@),
    ensures
        ({
            let files = lang_files_in(old(loader)@, *env);
            &&& r@ == effective_file(
                files,
                config_dirs_in(old(loader)@, *env),
                "languages.toml"@,
            )
            &&& final(loader)@ == after_effective(
                LoaderView { lang_config_file_overrides: Some(files), ..old(loader)@ },
                files,
                *env,
            )
        }),
{
    let overrides = lang_config_file_overrides(loader, env);
    effective_config_file(&overrides, "languages.toml", loader, env)
}

// ── Other directories ────────────────────────────────────────────────────
/// The directory for caches.
pub fn cache_dir(env: &Env) -> (r: PathBuf)
    ensures
        r@ == joined(env.cache_home@, "helix"@),
{
    env.cache_home.join("helix")
}

/// The directory for data.
pub fn data_dir(env: &Env) -> (r: PathBuf)
    ensures
        r@ == joined(env.data_home@, "helix"@),
{
    env.data_home.join("helix")
}

/// The log file that is used where none is specified.
pub open spec fn default_log_of(env: Env) -> Seq<char> {
    joined(joined(env.cache_home@, "helix"@), "helix.log"@)
}

/// The log file that is used where none is specified.
pub fn default_log_file(env: &Env) -> (r: PathBuf)
    ensures
        r@ == default_log_of(*env),
{
    cache_dir(env).join("helix.log")
}

/// Settles on a log file: the specified one, or the default. Its directory is
/// handed back to be created, if it does not exist.
pub fn initialize_log_file(
    loader: &mut Loader,
    specified_file: Option<PathBuf>,
    env: &Env,
    dry: &mut DryRun,
    disk: &Disk,
) -> (r: Option<PathBuf>)
    ensures
        ({
            let file = settled(path_text(specified_file), default_log_of(*env));
            &&& final(loader)@ == (LoaderView {
                log_file: Some(settled(old(loader)@.log_file, file)),
                ..old(loader)@
            })
            &&& path_text(r) == parent_to_make(old(dry)@, file, *disk)
            &&& final(dry)@ == parent_created(old(dry)@, file, *disk)
        }),
{
    let file = match specified_file {
        Some(file) => file,
        None => default_log_file(env),
    };
    let made = ensure_parent_dir(dry, &file, disk);
    if loader.log_file.is_none() {
        loader.log_file = Some(file);
    }
    made
}

/// The log file, once it is settled.
pub fn log_file(loader: &Loader) -> (r: PathBuf)
    requires
        loader@.log_file is Some,
    ensures
        Some(r@) == loader@.log_file,
{
    match &loader.log_file {
        Some(file) => file.clone(),
        None => PathBuf::from(""),
    }
}

// ── The workspace ────────────────────────────────────────────────────────
/// Whether a directory holds one of the entries that mark a workspace.
pub open spec fn is_workspace(t: Seq<char>, disk: Disk) -> bool {
    ||| disk.present(joined(t, ".git"@))
    ||| disk.present(joined(t, ".svn"@))
    ||| disk.present(joined(t, ".jj"@))
    ||| disk.present(joined(t, ".helix"@))
}

/// The first workspace among directories.
pub open spec fn first_workspace(s: Seq<Seq<char>>, disk: Disk) -> Option<Seq<char>>
    decreases s.len(),
{
    if s.len() == 0 {
        None
    } else if is_workspace(s[0], disk) {
        Some(s[0])
    } else {
        first_workspace(s.skip(1), disk)
    }
}

/// The workspace that `t` is in: the nearest directory upward that is marked
/// as one. If there is none, `t` itself, and `true`.
pub open spec fn workspace_of(t: Seq<char>, disk: Disk) -> (Seq<char>, bool) {
    match first_workspace(ancestors(t), disk) {
        Some(w) => (w, false),
        None => (t, true),
    }
}

/// Finds the workspace that a directory is in.
///
/// Searches upward from the directory for the first one that contains either
/// `.git`, `.svn`, `.jj` or `.helix`. If no workspace was found returns
/// (dir, true). Otherwise (workspace, false) is returned
pub fn find_workspace_in(dir: &PathBuf, disk: &Disk) -> (r: (PathBuf, bool))
    ensures
        (r.0@, r.1) == workspace_of(dir@, *disk),
{
    let dirs = dir.ancestors();
    let ghost s = path_texts(dirs@);
    let mut i: usize = 0;
    assert(s.skip(0) =~= s);
    while i < dirs.len()
        invariant
            i <= dirs@.len(),
            s == path_texts(dirs@),
            s == ancestors(dir@),
            first_workspace(s, *disk) == first_workspace(s.skip(i as int), *disk),
        decreases dirs@.len() - i,
    {
        assert(s.skip(i as int)[0] == dirs@[i as int]@);
        assert(s.skip(i as int).skip(1) =~= s.skip(i + 1));
        let ancestor = &dirs[i];
        if disk.is_present(&ancestor.join(".git")) || disk.is_present(&ancestor.join(".svn"))
            || disk.is_present(&ancestor.join(".jj")) || disk.is_present(&ancestor.join(".helix")) {
            return (ancestor.clone(), false);
        }
        i += 1;
    }
    (dir.clone(), true)
}

/// The paths whose presence decides which workspace a directory is in.
pub fn workspace_probes(dir: &PathBuf) -> (r: Vec<PathBuf>)
    ensures
        path_texts(r@) == probes_in(ancestors(dir@)),
{
    let dirs = dir.ancestors();
    let ghost s = path_texts(dirs@);
    let mut out: Vec<PathBuf> = Vec::new();
    let mut i: usize = 0;
    assert(path_texts(out@) =~= probes_in(s.take(0)));
    while i < dirs.len()
        invariant
            i <= dirs@.len(),
            s == path_texts(dirs@),
            path_texts(out@) == probes_in(s.take(i as int)),
        decreases dirs@.len() - i,
    {
        let ghost before = path_texts(out@);
        out.push(dirs[i].join(".git"));
        out.push(dirs[i].join(".svn"));
        out.push(dirs[i].join(".jj"));
        out.push(dirs[i].join(".helix"));
        assert(s.take(i + 1).drop_last() =~= s.take(i as int));
        assert(s.take(i + 1).last() == dirs@[i as int]@);
        assert(path_texts(out@) =~= before + markers_in(dirs@[i as int]@));
        i += 1;
    }
    assert(s.take(i as int) =~= s);
    out
}

/// The entries of a directory that mark it as a workspace.
pub open spec fn markers_in(t: Seq<char>) -> Seq<Seq<char>> {
    seq![joined(t, ".git"@), joined(t, ".svn"@), joined(t, ".jj"@), joined(t, ".helix"@)]
}

/// The entries of some directories that mark these as workspaces.
pub open spec fn probes_in(s: Seq<Seq<char>>) -> Seq<Seq<char>>
    decreases s.len(),
{
    if s.len() == 0 {
        Seq::empty()
    } else {
        probes_in(s.drop_last()) + markers_in(s.last())
    }
}

/// Finds the current workspace folder.
/// Used as a ceiling dir for LSP root resolution, the filepicker and potentially as a future filewatching root
pub fn find_workspace(env: &Env, disk: &Disk) -> (r: (PathBuf, bool))
    ensures
        (r.0@, r.1) == workspace_of(env.current_dir@, *disk),
{
    find_workspace_in(&env.current_dir, disk)
}

/// A file under `.helix` in the current workspace.
pub open spec fn workspace_file(env: Env, disk: Disk, name: Seq<char>) -> Seq<char> {
    joined(joined(workspace_of(env.current_dir@, disk).0, ".helix"@), name)
}

/// The config file of the current workspace.
pub fn workspace_config_file(env: &Env, disk: &Disk) -> (r: PathBuf)
    ensures
        r@ == workspace_file(*env, *disk, "config.toml"@),
{
    find_workspace(env, disk).0.join(".helix").join("config.toml")
}

/// The language config file of the current workspace.
pub fn workspace_lang_config_file(env: &Env, disk: &Disk) -> (r: PathBuf)
    ensures
        r@ == workspace_file(*env, *disk, "languages.toml"@),
{
    find_workspace(env, disk).0.join(".helix").join("languages.toml")
}

/// The runtime directory of the current workspace.
pub fn workspace_runtime_dir(env: &Env, disk: &Disk) -> (r: PathBuf)
    ensures
        r@ == workspace_file(*env, *disk, "runtime"@),
{
    find_workspace(env, disk).0.join(".helix").join("runtime")
}

// ── Runtime directories ──────────────────────────────────────────────────
/// The runtime directory of the current workspace, if it is there and the
/// workspace is trusted.
pub open spec fn trusted_runtime_of(env: Env, disk: Disk, trusted: bool) -> Option<Seq<char>> {
    let t = workspace_file(env, disk, "runtime"@);
    if disk.dir_at(t) && trusted {
        Some(t)
    } else {
        None
    }
}

/// The directory `runtime` beside what the path leads to.
pub open spec fn runtime_beside(t: Seq<char>) -> Seq<char> {
    match parent(t) {
        Some(p) => joined(p, "runtime"@),
        None => Seq::empty(),
    }
}

/// The directory `runtime` in each of some directories.
pub open spec fn runtime_in(dirs: Seq<Seq<char>>) -> Seq<Seq<char>> {
    Seq::new(dirs.len(), |i: int| joined(dirs[i], "runtime"@))
}

/// Runtime directories from highest to lowest priority.
pub open spec fn runtime_dirs_of(
    cli: Option<Seq<char>>,
    workspace: Option<Seq<char>>,
    env: Env,
    dirs: Seq<Seq<char>>,
) -> Seq<Seq<char>> {
    at_most_one(cli) + at_most_one(as_meant(path_text(env.runtime), env)) + at_most_one(workspace)
        + at_most_one(
        match env.cargo_manifest_dir {
            Some(dir) => Some(runtime_beside(dir@)),
            None => None,
        },
    ) + runtime_in(dirs) + at_most_one(path_text(env.default_runtime)) + seq![
        runtime_beside(env.executable@),
    ]
}

/// The runtime directories that are, or would now be, settled on.
pub open spec fn runtime_dirs_in(v: LoaderView, env: Env, disk: Disk, trusted: bool) -> Seq<
    Seq<char>,
> {
    settled(
        v.runtime_dirs,
        runtime_dirs_of(
            settled(v.runtime_dir_override, None),
            trusted_runtime_of(env, disk, trusted),
            env,
            config_dirs_in(v, env),
        ),
    )
}

/// `v` with the runtime directories settled; they rest on the config
/// directories.
pub open spec fn with_runtime_dirs(v: LoaderView, env: Env, disk: Disk, trusted: bool) -> LoaderView {
    if v.runtime_dirs is Some {
        v
    } else {
        LoaderView {
            runtime_dirs: Some(runtime_dirs_in(v, env, disk, trusted)),
            ..with_config_dirs(v, env)
        }
    }
}

/// Store the `--runtime-dir` CLI override. A directory that does not exist yet
/// is handed back to be created.
///
/// The runtime directory list itself is built lazily on first access (see [`runtime_dirs`])
/// so that workspace-relative entries (`.helix/runtime/`) resolve against the final working
/// directory (i.e. after `-w` has been applied).
pub fn set_runtime_dir_override(
    loader: &mut Loader,
    dir: Option<PathBuf>,
    env: &Env,
    dry: &mut DryRun,
    disk: &Disk,
) -> (r: Option<PathBuf>)
    ensures
        final(loader)@ == (LoaderView {
            runtime_dir_override: Some(
                settled(old(loader)@.runtime_dir_override, as_meant(path_text(dir), *env)),
            ),
            ..old(loader)@
        }),
        path_text(r) == some_dir_to_make(old(dry)@, as_meant(path_text(dir), *env), *disk),
        final(dry)@ == some_dir_created(old(dry)@, as_meant(path_text(dir), *env), *disk),
{
    let dir = meant(&dir, env);
    let made = ensure_some_dir(dry, &dir, disk);
    if loader.runtime_dir_override.is_none() {
        loader.runtime_dir_override = Some(dir);
    }
    made
}

/// `.helix/runtime/` of the current workspace, if it exists and the workspace
/// is *explicitly* trusted: implicit trust levels do not count, since the
/// list of runtime directories may be built before the config is loaded.
fn trusted_workspace_runtime_dir(env: &Env, disk: &Disk, trusted: bool) -> (r: Option<PathBuf>)
    ensures
        path_text(r) == trusted_runtime_of(*env, *disk, trusted),
{
    let dir = workspace_runtime_dir(env, disk);
    if !disk.is_dir(&dir) {
        return None;
    }
    if trusted {
        Some(dir)
    } else {
        None
    }
}

/// Finds `runtime` beside what the path leads to.
fn beside(path: &PathBuf) -> (r: PathBuf)
    requires
        parent(path@) is Some,
    ensures
        r@ == runtime_beside(path@),
{
    match path.parent() {
        Some(p) => p.join("runtime"),
        None => PathBuf::from(""),
    }
}

/// A list of runtime directories from highest to lowest priority
///
/// The priority is:
///
/// 1. the `--runtime-dir` command line argument
/// 2. `HELIX_RUNTIME` (if the environment variable is set)
/// 3. `.helix/runtime/` of the current workspace (only if the workspace is trusted)
/// 4. sibling directory to `CARGO_MANIFEST_DIR` (if the environment variable is set)
/// 5. `runtime/` inside each config directory (see [`config_dirs`], highest priority first)
/// 6. `HELIX_DEFAULT_RUNTIME` (if the environment variable is set *at build time*)
/// 7. subdirectory of path to helix executable (always included)
fn prioritize_runtime_dirs(
    cli_dir: &Option<PathBuf>,
    workspace: &Option<PathBuf>,
    env: &Env,
    dirs: &Vec<PathBuf>,
) -> (r: Vec<PathBuf>)
    requires
        env_valid(*env),
    ensures
        path_texts(r@) == runtime_dirs_of(
            path_text(*cli_dir),
            path_text(*workspace),
            *env,
            path_texts(dirs@),
        ),
{
    // Adding higher priority first
    let mut rt_dirs: Vec<PathBuf> = Vec::new();
    assert(path_texts(rt_dirs@) =~= Seq::empty());
    push_some(&mut rt_dirs, cli_dir);
    assert(Seq::empty() + at_most_one(path_text(*cli_dir)) =~= at_most_one(path_text(*cli_dir)));
    push_some(&mut rt_dirs, &meant(&env.runtime, env));
    push_some(&mut rt_dirs, workspace);
    let beside_manifest = match &env.cargo_manifest_dir {
        // this is the directory of the crate being run by cargo, we need the
        // workspace path so we take the parent
        Some(dir) => Some(beside(dir)),
        None => None,
    };
    push_some(&mut rt_dirs, &beside_manifest);
    let ghost front = path_texts(rt_dirs@);
    let ghost all = runtime_in(path_texts(dirs@));
    let mut i: usize = 0;
    assert(path_texts(rt_dirs@) =~= front + all.take(0));
    while i < dirs.len()
        invariant
            i <= dirs@.len(),
            all == runtime_in(path_texts(dirs@)),
            path_texts(rt_dirs@) == front + all.take(i as int),
        decreases dirs@.len() - i,
    {
        let ghost before = rt_dirs@;
        rt_dirs.push(dirs[i].join("runtime"));
        assert(path_texts(rt_dirs@) =~= path_texts(before).push(all[i as int]));
        assert(all.take(i + 1) =~= all.take(i as int).push(all[i as int]));
        assert(path_texts(rt_dirs@) =~= front + all.take(i + 1));
        i += 1;
    }
    assert(all.take(i as int) =~= all);
    push_some(&mut rt_dirs, &env.default_runtime);
    let ghost before = path_texts(rt_dirs@);
    // fallback to location of the executable being run
    rt_dirs.push(beside(&env.executable));
    assert(path_texts(rt_dirs@) =~= before + seq![runtime_beside(env.executable@)]);
    rt_dirs
}

/// Runtime directories ordered from highest to lowest priority
///
/// All directories should be checked when looking for files.
///
/// The list is computed lazily on first access, so by then the working directory from `-w`
/// (if any) has been applied and workspace-relative entries resolve correctly. `trusted` says
/// whether the workspace has been explicitly trusted.
pub fn runtime_dirs(loader: &mut Loader, env: &Env, disk: &Disk, trusted: bool) -> (r: Vec<PathBuf>)
    requires
        env_valid(*env),
    ensures
        path_texts(r@) == runtime_dirs_in(old(loader)@, *env, *disk, trusted),
        final(loader)@ == with_runtime_dirs(old(loader)@, *env, *disk, trusted),
{
    if loader.runtime_dirs.is_none() {
        let cli_dir = match &loader.runtime_dir_override {
            Some(Some(dir)) => Some(dir.clone()),
            _ => None,
        };
        let workspace = trusted_workspace_runtime_dir(env, disk, trusted);
        let dirs = config_dirs(loader, env);
        loader.runtime_dirs = Some(prioritize_runtime_dirs(&cli_dir, &workspace, env, &dirs));
    }
    match &loader.runtime_dirs {
        Some(dirs) => copy(dirs),
        None => Vec::new(),
    }
}

/// The first of the files named `rel` in some directories that is there.
pub open spec fn first_present(dirs: Seq<Seq<char>>, rel: Seq<char>, disk: Disk) -> Option<Seq<char>>
    decreases dirs.len(),
{
    if dirs.len() == 0 {
        None
    } else if disk.present(joined(dirs[0], rel)) {
        Some(joined(dirs[0], rel))
    } else {
        first_present(dirs.skip(1), rel, disk)
    }
}

/// The runtime file `rel`: the first that is there, else the one in the last
/// directory.
pub open spec fn runtime_file_in(dirs: Seq<Seq<char>>, rel: Seq<char>, disk: Disk) -> Seq<char> {
    match first_present(dirs, rel, disk) {
        Some(t) => t,
        None => if dirs.len() > 0 {
            joined(dirs.last(), rel)
        } else {
            Seq::empty()
        },
    }
}

/// Find file with path relative to runtime directory
///
/// `rel_path` should be the relative path from within the `runtime/` directory.
/// The valid runtime directories are searched in priority order and the first
/// file found to exist is returned, otherwise None.
fn find_runtime_file(dirs: &Vec<PathBuf>, rel_path: &str, disk: &Disk) -> (r: Option<PathBuf>)
    ensures
        path_text(r) == first_present(path_texts(dirs@), rel_path@, *disk),
{
    let ghost s = path_texts(dirs@);
    let mut i: usize = 0;
    assert(s.skip(0) =~= s);
    while i < dirs.len()
        invariant
            i <= dirs@.len(),
            s == path_texts(dirs@),
            first_present(s, rel_path@, *disk) == first_present(s.skip(i as int), rel_path@, *disk),
        decreases dirs@.len() - i,
    {
        assert(s.skip(i as int)[0] == dirs@[i as int]@);
        assert(s.skip(i as int).skip(1) =~= s.skip(i + 1));
        let path = dirs[i].join(rel_path);
        if disk.is_present(&path) {
            return Some(path);
        }
        i += 1;
    }
    None
}

/// Find file with path relative to runtime directory
///
/// `rel_path` should be the relative path from within the `runtime/` directory.
/// The valid runtime directories are searched in priority order and the first
/// file found to exist is returned, otherwise the path to the final attempt
/// that failed.
pub fn runtime_file(
    loader: &mut Loader,
    rel_path: &str,
    env: &Env,
    disk: &Disk,
    trusted: bool,
) -> (r: PathBuf)
    requires
        env_valid(*env),
    ensures
        r@ == runtime_file_in(
            runtime_dirs_in(old(loader)@, *env, *disk, trusted),
            rel_path@,
            *disk,
        ),
        final(loader)@ == with_runtime_dirs(old(loader)@, *env, *disk, trusted),
{
    let dirs = runtime_dirs(loader, env, disk, trusted);
    assert(path_texts(dirs@).len() == dirs@.len());
    match find_runtime_file(&dirs, rel_path, disk) {
        Some(path) => path,
        None => {
            if dirs.len() > 0 {
                dirs[dirs.len() - 1].join(rel_path)
            } else {
                proof {
                    reveal_strlit("");
                }
                PathBuf::from("")
            }
        },
    }
}

// ── Laws ─────────────────────────────────────────────────────────────────
/// There is always a config directory: the system default comes last, and a
/// directory that was specified comes first.
pub proof fn law_config_dirs(specified: Option<Seq<char>>, env: Env)
    ensures
        config_dirs_of(specified, env).len() > 0,
        config_dirs_of(specified, env).last() == system_config_dir_of(env),
        specified matches Some(t) ==> config_dirs_of(specified, env)[0] == normalized(
            t,
            path_text(env.home),
        ),
        specified is None ==> (env.config_dir matches Some(dir) ==> config_dirs_of(
            specified,
            env,
        )[0] == normalized(dir@, path_text(env.home))),
{
}

/// There are always two runtime directories: that beside the executable comes
/// last, and one that was given on the command line comes first.
pub proof fn law_runtime_dirs(
    cli: Option<Seq<char>>,
    workspace: Option<Seq<char>>,
    env: Env,
    dirs: Seq<Seq<char>>,
)
    requires
        dirs.len() > 0,
    ensures
        runtime_dirs_of(cli, workspace, env, dirs).len() >= 2,
        runtime_dirs_of(cli, workspace, env, dirs).last() == runtime_beside(env.executable@),
        cli matches Some(t) ==> runtime_dirs_of(cli, workspace, env, dirs)[0] == t,
        cli is None ==> (env.runtime matches Some(dir) ==> runtime_dirs_of(
            cli,
            workspace,
            env,
            dirs,
        )[0] == normalized(dir@, path_text(env.home))),
        forall|i: int|
            0 <= i < dirs.len() ==> runtime_dirs_of(cli, workspace, env, dirs).contains(
                joined(#[trigger] dirs[i], "runtime"@),
            ),
{
    let r = runtime_dirs_of(cli, workspace, env, dirs);
    let front = at_most_one(cli) + at_most_one(as_meant(path_text(env.runtime), env)) + at_most_one(
        workspace,
    ) + at_most_one(
        match env.cargo_manifest_dir {
            Some(dir) => Some(runtime_beside(dir@)),
            None => None,
        },
    );
    assert forall|i: int| 0 <= i < dirs.len() implies r.contains(
        joined(#[trigger] dirs[i], "runtime"@),
    ) by {
        assert(r[front.len() + i] == runtime_in(dirs)[i]);
    }
}

/// What is settled stays: a second chain of config directories, config files
/// or runtime directories changes nothing.
pub proof fn law_settled_once(
    v: LoaderView,
    specified: Option<Seq<char>>,
    env: Env,
    other: Env,
    disk: Disk,
    trusted: bool,
    later: bool,
)
    ensures
        config_dirs_in(with_config_dirs(v, env), other) == config_dirs_in(v, env),
        settled(with_config_dirs(v, env).config_dirs, config_dirs_of(specified, other))
            == config_dirs_in(v, env),
        ({
            let files = config_files_in(v, env);
            let w = LoaderView { config_file_overrides: Some(files), ..v };
            config_files_in(w, other) == files && settled(
                w.config_file_overrides,
                config_files_of(specified, other),
            ) == files
        }),
        ({
            let files = lang_files_in(v, env);
            let w = LoaderView { lang_config_file_overrides: Some(files), ..v };
            lang_files_in(w, other) == files && settled(
                w.lang_config_file_overrides,
                lang_files_of(specified, other),
            ) == files
        }),
        runtime_dirs_in(with_runtime_dirs(v, env, disk, trusted), other, disk, later)
            == runtime_dirs_in(v, env, disk, trusted),
{
}

/// A dry run makes no directory, neither one that was specified nor that of a
/// file; it lists each that is not there, but not the current directory.
pub proof fn law_dry_run_makes_nothing(v: DryRunView, t: Seq<char>, disk: Disk)
    requires
        v.enabled,
        v.report is Some,
    ensures
        some_dir_to_make(v, Some(t), disk) is None,
        parent_to_make(v, t, disk) is None,
        t.len() > 0 && !disk.present(t) ==> listed(
            some_dir_created(v, Some(t), disk).report->0.created_dirs,
            t,
        ),
        t.len() == 0 ==> some_dir_created(v, Some(t), disk) == v,
        parent(t) matches Some(p) ==> (p.len() > 0 && !disk.present(p) ==> listed(
            parent_created(v, t, disk).report->0.created_dirs,
            p,
        )),
        parent(t) matches Some(p) ==> (p.len() == 0 ==> parent_created(v, t, disk) == v),
{
    law_missing_dirs_recorded_once(v, t, disk);
    if let Some(p) = parent(t) {
        law_missing_dirs_recorded_once(v, p, disk);
    }
}

/// The explicit file that was given on the command line goes before that of
/// the environment, and both go before the config directories.
pub proof fn law_effective_file(
    specified: Option<Seq<char>>,
    env: Env,
    dirs: Seq<Seq<char>>,
    name: Seq<char>,
)
    ensures
        specified matches Some(t) ==> effective_file(config_files_of(specified, env), dirs, name)
            == normalized(t, path_text(env.home)),
        specified is None ==> (env.config_file matches Some(file) ==> effective_file(
            config_files_of(specified, env),
            dirs,
            name,
        ) == normalized(file@, path_text(env.home))),
        specified is None && env.config_file is None ==> effective_file(
            config_files_of(specified, env),
            dirs,
            name,
        ) == joined(dirs[0], name),
{
}

proof fn lemma_first_workspace(s: Seq<Seq<char>>, disk: Disk)
    ensures
        match first_workspace(s, disk) {
            Some(w) => exists|i: int|
                0 <= i < s.len() && #[trigger] s[i] == w && is_workspace(w, disk) && forall|j: int|
                    0 <= j < i ==> !is_workspace(#[trigger] s[j], disk),
            None => forall|j: int| 0 <= j < s.len() ==> !is_workspace(#[trigger] s[j], disk),
        },
    decreases s.len(),
{
    if s.len() > 0 {
        if is_workspace(s[0], disk) {
            assert(s[0] == s[0]);
        } else {
            let t = s.skip(1);
            lemma_first_workspace(t, disk);
            match first_workspace(s, disk) {
                Some(w) => {
                    let i = choose|i: int|
                        0 <= i < t.len() && #[trigger] t[i] == w && is_workspace(w, disk)
                            && forall|j: int|
                            0 <= j < i ==> !is_workspace(#[trigger] t[j], disk);
                    assert(s[i + 1] == w);
                    assert forall|j: int| 0 <= j < i + 1 implies !is_workspace(
                        #[trigger] s[j],
                        disk,
                    ) by {
                        if j > 0 {
                            assert(t[j - 1] == s[j]);
                        }
                    }
                },
                None => {
                    assert forall|j: int| 0 <= j < s.len() implies !is_workspace(
                        #[trigger] s[j],
                        disk,
                    ) by {
                        if j > 0 {
                            assert(t[j - 1] == s[j]);
                        }
                    }
                },
            }
        }
    }
}

/// The workspace is the nearest directory upward that is marked as one, and
/// only where there is none is it the directory itself.
pub proof fn law_workspace(t: Seq<char>, disk: Disk)
    ensures
        match workspace_of(t, disk) {
            (w, false) => exists|i: int|
                0 <= i < ancestors(t).len() && #[trigger] ancestors(t)[i] == w && is_workspace(
                    w,
                    disk,
                ) && forall|j: int|
                    0 <= j < i ==> !is_workspace(#[trigger] ancestors(t)[j], disk),
            (w, true) => w == t && forall|j: int|
                0 <= j < ancestors(t).len() ==> !is_workspace(#[trigger] ancestors(t)[j], disk),
        },
{
    lemma_first_workspace(ancestors(t), disk);
}

/// A runtime file that is there is found in the first directory that has it.
pub proof fn law_runtime_file(dirs: Seq<Seq<char>>, rel: Seq<char>, disk: Disk, i: int)
    requires
        0 <= i < dirs.len(),
        disk.present(joined(dirs[i], rel)),
        forall|j: int| 0 <= j < i ==> !disk.present(joined(#[trigger] dirs[j], rel)),
    ensures
        runtime_file_in(dirs, rel, disk) == joined(dirs[i], rel),
    decreases dirs.len(),
{
    if i > 0 {
        assert(!disk.present(joined(dirs[0], rel)));
        let rest = dirs.skip(1);
        assert(rest[i - 1] == dirs[i]);
        assert forall|j: int| 0 <= j < i - 1 implies !disk.present(
            joined(#[trigger] rest[j], rel),
        ) by {
            assert(rest[j] == dirs[j + 1]);
        }
        law_runtime_file(rest, rel, disk, i - 1);
        assert(first_present(rest, rel, disk) is Some) by {
            lemma_some_present(rest, rel, disk, i - 1);
        }
    }
}

proof fn lemma_some_present(dirs: Seq<Seq<char>>, rel: Seq<char>, disk: Disk, i: int)
    requires
        0 <= i < dirs.len(),
        disk.present(joined(dirs[i], rel)),
    ensures
        first_present(dirs, rel, disk) is Some,
    decreases dirs.len(),
{
    if !disk.present(joined(dirs[0], rel)) {
        assert(dirs.skip(1)[i - 1] == dirs[i]);
        lemma_some_present(dirs.skip(1), rel, disk, i - 1);
    }
}

} // verus!

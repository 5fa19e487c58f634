//! What a session holds, where it is stored and when it is saved.
//!
//! A session captures, for the current workspace: the open file-backed
//! buffers, the split layout and which document each view shows, every view's
//! selections and scroll position, and the state of the file explorer
//! sidebar. Sessions are stored as files, one per workspace (plus an optional
//! session name), under the session directory.
use crate::args::{Args, Layout, Position, SessionArg, SessionArgView};
use crate::file_tree::StateView;
use crate::path::{
    is_name, joined, lemma_join_name, parent, parts, path_text, path_texts, Part, PathBuf,
};
use crate::text::{
    ascii_lowercase, concat, ends_with, hex, last_index, lemma_last_index, opt_text, same,
    starts_with, to_ascii_lowercase, to_hex,
};
use std::collections::hash_map::DefaultHasher;
use std::hash::Hasher;
use vstd::prelude::*;
use vstd::std_specs::hash::DefaultHasherAdditionalSpecFns;
use vstd::utf8::encode_utf8;

verus! {

// ── What a session holds ─────────────────────────────────────────────────
/// The version of the session format.
pub const SESSION_VERSION: u32 = 1;

/// Minimum interval between two automatic session writes, in milliseconds.
/// Saving is triggered on redraw whenever the session changed, so this
/// throttles writes while editing continuously. [`SessionManager::save`]
/// bypasses the throttle for the final write on exit.
pub const SAVE_INTERVAL: u64 = 1000;

/// A cursor position (0-based row/column).
#[derive(Debug, Clone, Copy, PartialEq, Eq, Structural, Hash)]
pub struct Pos {
    pub row: usize,
    pub col: usize,
}

impl From<Position> for Pos {
    fn from(pos: Position) -> (r: Pos) {
        Pos { row: pos.row, col: pos.col }
    }
}

impl vstd::std_specs::convert::FromSpecImpl<Position> for Pos {
    open spec fn obeys_from_spec() -> bool {
        true
    }

    open spec fn from_spec(pos: Position) -> Pos {
        Pos { row: pos.row, col: pos.col }
    }
}

impl From<Pos> for Position {
    fn from(pos: Pos) -> (r: Position) {
        Position { row: pos.row, col: pos.col }
    }
}

impl vstd::std_specs::convert::FromSpecImpl<Pos> for Position {
    open spec fn obeys_from_spec() -> bool {
        true
    }

    open spec fn from_spec(pos: Pos) -> Position {
        Position { row: pos.row, col: pos.col }
    }
}

/// The end-points of a selection range.
#[derive(Debug, Clone, Copy, PartialEq, Eq, Structural)]
pub struct RangeState {
    pub anchor: Pos,
    pub head: Pos,
}

/// The persisted state of a single view, as a mathematical value.
pub struct LeafView {
    pub path: Seq<char>,
    pub selections: Seq<RangeState>,
    pub primary: usize,
    pub scroll_anchor: Option<Pos>,
    pub vertical_offset: usize,
    pub horizontal_offset: usize,
}

/// The persisted state of a single view (a leaf of the split tree).
#[derive(Debug)]
pub struct ViewState {
    pub path: PathBuf,
    pub selections: Vec<RangeState>,
    pub primary: usize,
    pub scroll_anchor: Option<Pos>,
    pub vertical_offset: usize,
    pub horizontal_offset: usize,
}

impl View for ViewState {
    type V = LeafView;

    open spec fn view(&self) -> LeafView {
        LeafView {
            path: self.path@,
            selections: self.selections@,
            primary: self.primary,
            scroll_anchor: self.scroll_anchor,
            vertical_offset: self.vertical_offset,
            horizontal_offset: self.horizontal_offset,
        }
    }
}

/// The persisted split layout, as a mathematical value.
pub enum LayoutView {
    View(LeafView),
    Container { layout: Layout, children: Seq<LayoutView> },
}

/// The persisted split layout. Views that showed a document without a path
/// (scratch buffers) are not persisted.
#[derive(Debug)]
pub enum LayoutState {
    View(ViewState),
    Container { layout: Layout, children: Vec<LayoutState> },
}

impl LayoutState {
    /// What the layout is.
    pub open spec fn shape(self) -> LayoutView
        decreases self,
    {
        match self {
            LayoutState::View(v) => LayoutView::View(v@),
            LayoutState::Container { layout, children } => LayoutView::Container {
                layout,
                children: shapes(children@),
            },
        }
    }
}

/// What several layouts are.
pub open spec fn shapes(s: Seq<LayoutState>) -> Seq<LayoutView>
    decreases s,
{
    if s.len() == 0 {
        Seq::empty()
    } else {
        shapes(s.drop_last()).push(s.last().shape())
    }
}

impl View for LayoutState {
    type V = LayoutView;

    open spec fn view(&self) -> LayoutView {
        self.shape()
    }
}

/// [`shapes`] goes layout by layout.
pub proof fn lemma_shapes(s: Seq<LayoutState>)
    ensures
        shapes(s).len() == s.len(),
        forall|i: int| 0 <= i < s.len() ==> #[trigger] shapes(s)[i] == s[i].shape(),
    decreases s.len(),
{
    if s.len() > 0 {
        lemma_shapes(s.drop_last());
        assert forall|i: int| 0 <= i < s.len() implies #[trigger] shapes(s)[i] == s[i].shape() by {
            if i < s.len() - 1 {
                assert(shapes(s.drop_last())[i] == s.drop_last()[i].shape());
            }
        }
    }
}

/// A buffer that was open when the session was saved, as a mathematical
/// value.
pub struct BufferView {
    pub path: Seq<char>,
    pub cursor: Option<Pos>,
}

/// A buffer that was open when the session was saved.
#[derive(Debug)]
pub struct BufferState {
    pub path: PathBuf,
    /// Primary cursor position, restored only when the buffer is not shown
    /// in any view (views store their own selections).
    pub cursor: Option<Pos>,
}

impl View for BufferState {
    type V = BufferView;

    open spec fn view(&self) -> BufferView {
        BufferView { path: self.path@, cursor: self.cursor }
    }
}

/// The buffers that a list of values stands for.
pub open spec fn buffer_views(s: Seq<BufferState>) -> Seq<BufferView> {
    Seq::new(s.len(), |i: int| s[i]@)
}

/// The persisted file explorer sidebar state.
#[derive(Debug)]
pub struct SidebarState {
    pub root: PathBuf,
    pub expanded: Vec<PathBuf>,
    pub selected: Option<PathBuf>,
    pub scroll: usize,
}

impl View for SidebarState {
    type V = StateView;

    open spec fn view(&self) -> StateView {
        StateView {
            root: self.root@,
            expanded: path_texts(self.expanded@),
            selected: path_text(self.selected),
            scroll: self.scroll as nat,
        }
    }
}

/// The full persisted session of a workspace, as a mathematical value.
pub struct SessionView {
    pub version: u32,
    pub workspace: Seq<char>,
    pub buffers: Seq<BufferView>,
    pub layout: Option<LayoutView>,
    pub focused_view: nat,
    pub sidebar: Option<StateView>,
}

/// The full persisted session of a workspace.
#[derive(Debug)]
pub struct Session {
    pub version: u32,
    pub workspace: PathBuf,
    pub buffers: Vec<BufferState>,
    pub layout: Option<LayoutState>,
    /// Index of the focused view among the layout leaves, in depth-first
    /// pre-order.
    pub focused_view: usize,
    pub sidebar: Option<SidebarState>,
}

/// What an optional layout is.
pub open spec fn opt_layout(l: Option<LayoutState>) -> Option<LayoutView> {
    match l {
        Some(l) => Some(l@),
        None => None,
    }
}

/// What an optional sidebar state is.
pub open spec fn opt_sidebar(s: Option<SidebarState>) -> Option<StateView> {
    match s {
        Some(s) => Some(s@),
        None => None,
    }
}

impl View for Session {
    type V = SessionView;

    open spec fn view(&self) -> SessionView {
        SessionView {
            version: self.version,
            workspace: self.workspace@,
            buffers: buffer_views(self.buffers@),
            layout: opt_layout(self.layout),
            focused_view: self.focused_view as nat,
            sidebar: opt_sidebar(self.sidebar),
        }
    }
}

// ── Where a session is stored ────────────────────────────────────────────
/// Whether a character is safe in a file name.
pub open spec fn is_safe(c: char) -> bool {
    'a' <= c <= 'z' || 'A' <= c <= 'Z' || '0' <= c <= '9' || c == '-' || c == '_' || c == '.'
}

/// A name with only those characters that are safe in a file name.
pub open spec fn sanitized(s: Seq<char>) -> Seq<char> {
    s.filter(|c: char| is_safe(c))
}

/// Keeps only characters that are safe in a file name.
pub fn sanitize_name(name: &str) -> (r: String)
    ensures
        r@ == sanitized(name@),
{
    let ghost s = name@;
    let ghost safe = |c: char| is_safe(c);
    let mut out = String::new();
    assert(s.take(0).filter(safe) =~= Seq::empty()) by {
        reveal(Seq::filter);
    }
    for c in it: name.chars()
        invariant
            it.seq() == s,
            safe == (|c: char| is_safe(c)),
            out@ == s.take(it.index()).filter(safe),
    {
        proof {
            let i = it.index();
            reveal(Seq::filter);
            assert(s.take(i + 1).drop_last() =~= s.take(i));
            assert(s.take(i + 1).last() == c);
        }
        if ('a' <= c && c <= 'z') || ('A' <= c && c <= 'Z') || ('0' <= c && c <= '9') || c == '-'
            || c == '_' || c == '.' {
            out.push(c);
        }
    }
    assert(s.take(s.len() as int) =~= s);
    out
}

/// One step of FNV-1a.
pub open spec fn fnv_step(hash: u64, byte: u8) -> u64 {
    (hash ^ (byte as u64)).wrapping_mul(0x0000_0100_0000_01b3)
}

/// The FNV-1a hash of some bytes.
pub open spec fn fnv(bytes: Seq<u8>) -> u64
    decreases bytes.len(),
{
    if bytes.len() == 0 {
        0xcbf2_9ce4_8422_2325
    } else {
        fnv_step(fnv(bytes.drop_last()), bytes.last())
    }
}

/// FNV-1a, used as a stable key for workspace paths (unlike
/// [`DefaultHasher`], the result is guaranteed not to change between runs).
fn fnv1a(bytes: &[u8]) -> (r: u64)
    ensures
        r == fnv(bytes@),
{
    let mut hash: u64 = 0xcbf2_9ce4_8422_2325;
    let mut i: usize = 0;
    while i < bytes.len()
        invariant
            i <= bytes@.len(),
            hash == fnv(bytes@.take(i as int)),
        decreases bytes@.len() - i,
    {
        let byte = bytes[i];
        assert(bytes@.take(i + 1).drop_last() =~= bytes@.take(i as int));
        assert(bytes@.take(i + 1).last() == byte);
        hash = (hash ^ (byte as u64)).wrapping_mul(0x0000_0100_0000_01b3);
        i += 1;
    }
    assert(bytes@.take(i as int) =~= bytes@);
    hash
}

/// The part of a session file's name that stands for the workspace.
pub open spec fn workspace_key(workspace: Seq<char>) -> Seq<char> {
    hex(fnv(encode_utf8(workspace)) as nat, 16)
}

fn key_of(workspace: &PathBuf) -> (r: String)
    ensures
        r@ == workspace_key(workspace@),
{
    to_hex(fnv1a(workspace.text.as_str().as_bytes()), 16)
}

/// The name of the session file of a workspace.
pub open spec fn session_file_name(workspace: Seq<char>, name: Option<Seq<char>>) -> Seq<char> {
    match name {
        Some(n) => workspace_key(workspace) + "."@ + n + ".toml"@,
        None => workspace_key(workspace) + ".toml"@,
    }
}

/// Static configuration of the session system, as a mathematical value.
pub struct SessionConfigView {
    pub name: Option<Seq<char>>,
    pub dir: Seq<char>,
}

/// Static configuration of the session system, resolved once at startup
/// from command line arguments and environment variables.
#[derive(Debug)]
pub struct SessionConfig {
    /// The session name; `None` selects the default per-workspace session.
    pub name: Option<String>,
    /// Directory where session files are stored.
    pub dir: PathBuf,
}

impl View for SessionConfig {
    type V = SessionConfigView;

    open spec fn view(&self) -> SessionConfigView {
        SessionConfigView { name: opt_text(self.name), dir: self.dir@ }
    }
}

impl Clone for SessionConfig {
    fn clone(&self) -> (r: SessionConfig)
        ensures
            r@ == self@,
    {
        SessionConfig {
            name: match &self.name {
                Some(n) => Some(n.clone()),
                None => None,
            },
            dir: self.dir.clone(),
        }
    }
}

/// Whether a value of `HELIX_SESSION` disables sessions.
pub open spec fn disables(value: Seq<char>) -> bool {
    let v = ascii_lowercase(value);
    v == "0"@ || v == "false"@ || v == "off"@ || v == "no"@
}

/// Whether a value of `HELIX_SESSION` selects the default session.
pub open spec fn selects_default(value: Seq<char>) -> bool {
    let v = ascii_lowercase(value);
    v == ""@ || v == "1"@ || v == "true"@ || v == "on"@ || v == "yes"@
}

/// The session that is asked for: none if sessions are disabled, else its
/// name if it has one.
pub open spec fn chosen_session(arg: SessionArgView, env: Option<Seq<char>>) -> Option<
    Option<Seq<char>>,
> {
    match arg {
        SessionArgView::Disabled => None,
        SessionArgView::Enabled(name) => Some(name),
        SessionArgView::Unspecified => match env {
            Some(value) => if disables(value) {
                None
            } else if selects_default(value) {
                Some(None)
            } else {
                Some(Some(value))
            },
            None => Some(None),
        },
    }
}

/// The configuration of the session system, unless sessions are disabled.
pub open spec fn session_config(
    arg: SessionArgView,
    dir_arg: Option<Seq<char>>,
    env: Option<Seq<char>>,
    dir_env: Option<Seq<char>>,
    cache_dir: Seq<char>,
) -> Option<SessionConfigView> {
    match chosen_session(arg, env) {
        None => None,
        Some(name) => Some(
            SessionConfigView {
                name: match name {
                    Some(n) => Some(sanitized(n)),
                    None => None,
                },
                dir: match (dir_arg, dir_env) {
                    (Some(d), _) => d,
                    (None, Some(d)) => d,
                    (None, None) => joined(cache_dir, "sessions"@),
                },
            },
        ),
    }
}

/// What an optional configuration is.
pub open spec fn opt_config(c: Option<SessionConfig>) -> Option<SessionConfigView> {
    match c {
        Some(c) => Some(c@),
        None => None,
    }
}

impl SessionConfig {
    /// Resolves the session configuration. Returns `None` when sessions are
    /// disabled. Command line arguments take precedence over environment
    /// variables: `session_env` and `dir_env` are the values of
    /// `HELIX_SESSION` and `HELIX_SESSION_DIR`, where these are set.
    pub fn resolve(
        args: &Args,
        session_env: &Option<String>,
        dir_env: &Option<PathBuf>,
        cache_dir: &PathBuf,
    ) -> (r: Option<SessionConfig>)
        ensures
            opt_config(r) == session_config(
                args@.session,
                args@.session_dir,
                opt_text(*session_env),
                path_text(*dir_env),
                cache_dir@,
            ),
    {
        let name = match &args.session {
            SessionArg::Disabled => {
                return None;
            },
            SessionArg::Enabled(name) => match name {
                Some(n) => Some(n.clone()),
                None => None,
            },
            SessionArg::Unspecified => match session_env {
                Some(value) => {
                    let lower = to_ascii_lowercase(value.as_str());
                    let v = lower.as_str();
                    if same(v, "0") || same(v, "false") || same(v, "off") || same(v, "no") {
                        return None;
                    }
                    // An explicit name is used verbatim; the usual truthy
                    // values select the default session.
                    if same(v, "") || same(v, "1") || same(v, "true") || same(v, "on") || same(
                        v,
                        "yes",
                    ) {
                        None
                    } else {
                        Some(value.clone())
                    }
                },
                None => None,
            },
        };
        let dir = match (&args.session_dir, dir_env) {
            (Some(d), _) => d.clone(),
            (None, Some(d)) => d.clone(),
            (None, None) => cache_dir.join("sessions"),
        };
        let name = match name {
            Some(n) => Some(sanitize_name(n.as_str())),
            None => None,
        };
        Some(SessionConfig { name, dir })
    }

    /// The session file for the given workspace root.
    pub fn file_for(&self, workspace: &PathBuf) -> (r: PathBuf)
        ensures
            r@ == joined(self@.dir, session_file_name(workspace@, self@.name)),
    {
        let mut file_name = key_of(workspace);
        if let Some(name) = &self.name {
            file_name = concat(concat(file_name.as_str(), ".").as_str(), name.as_str());
        }
        let whole = concat(file_name.as_str(), ".toml");
        self.dir.join(whole.as_str())
    }
}

/// A file in the session directory.
#[derive(Debug)]
pub struct SessionFile {
    pub name: String,
    /// When it was last modified, if that is known, by any measure that
    /// grows with time.
    pub modified: Option<u64>,
}

/// Whether a file is a session of the workspace with the key `key`.
pub open spec fn is_session_file(name: Seq<char>, key: Seq<char>) -> bool {
    &&& key.is_prefix_of(name)
    &&& {
        let rest = name.skip(key.len() as int);
        rest == ".toml"@ || ("."@.is_prefix_of(rest) && ".toml"@.is_suffix_of(rest))
    }
}

/// Whether `b` was modified no earlier than `a`; a time that is not known
/// comes before all others.
pub open spec fn not_older(a: Option<u64>, b: Option<u64>) -> bool {
    match (a, b) {
        (None, _) => true,
        (Some(_), None) => false,
        (Some(x), Some(y)) => x <= y,
    }
}

/// The position of the session file of a workspace that was modified last, or
/// `-1`; of several that were modified at the same time, the last one.
pub open spec fn latest(files: Seq<SessionFile>, key: Seq<char>) -> int
    decreases files.len(),
{
    if files.len() == 0 {
        -1
    } else {
        let before = latest(files.drop_last(), key);
        let f = files.last();
        if is_session_file(f.name@, key) && (before < 0 || not_older(
            files[before].modified,
            f.modified,
        )) {
            files.len() - 1
        } else {
            before
        }
    }
}

/// Finds the most recently modified session file of a workspace: the
/// default session `<hash>.toml` or any named session `<hash>.<name>.toml`.
fn latest_session_file(files: &Vec<SessionFile>, workspace: &PathBuf) -> (r: Option<usize>)
    ensures
        match r {
            Some(i) => i < files@.len() && latest(files@, workspace_key(workspace@)) == i,
            None => latest(files@, workspace_key(workspace@)) == -1,
        },
{
    let key = key_of(workspace);
    let ghost s = files@;
    let mut best: Option<usize> = None;
    let mut i: usize = 0;
    assert(s.take(0) =~= Seq::empty());
    while i < files.len()
        invariant
            i <= files@.len(),
            s == files@,
            key@ == workspace_key(workspace@),
            match best {
                Some(b) => b < i && latest(s.take(i as int), key@) == b,
                None => latest(s.take(i as int), key@) == -1,
            },
        decreases files@.len() - i,
    {
        assert(s.take(i + 1).drop_last() =~= s.take(i as int));
        assert(s.take(i + 1).last() == s[i as int]);
        if is_session_of(files[i].name.as_str(), key.as_str()) {
            let newer = match best {
                None => true,
                Some(b) => match (files[b].modified, files[i].modified) {
                    (None, _) => true,
                    (Some(_), None) => false,
                    (Some(x), Some(y)) => x <= y,
                },
            };
            if newer {
                best = Some(i);
            }
        }
        i += 1;
    }
    assert(s.take(i as int) =~= s);
    best
}

/// Whether a file is a session of the workspace with the given key.
fn is_session_of(name: &str, key: &str) -> (r: bool)
    ensures
        r == is_session_file(name@, key@),
{
    if !starts_with(name, key) {
        return false;
    }
    assert(key@.len() <= name@.len());
    let rest = name.substring_char(key.unicode_len(), name.unicode_len());
    assert(rest@ =~= name@.skip(key@.len() as int));
    same(rest, ".toml") || (starts_with(rest, ".") && ends_with(rest, ".toml"))
}

// ── When a session is saved ──────────────────────────────────────────────
/// Manages loading and debounced saving of the session of the current
/// workspace, as a mathematical value.
pub struct ManagerView {
    pub workspace: Seq<char>,
    pub file: Seq<char>,
    pub last_signature: u64,
    pub last_write: u64,
}

/// Manages loading and debounced saving of the session of the current
/// workspace. Times are in milliseconds.
#[derive(Debug)]
pub struct SessionManager {
    pub workspace: PathBuf,
    pub file: PathBuf,
    pub last_signature: u64,
    pub last_write: u64,
}

impl View for SessionManager {
    type V = ManagerView;

    open spec fn view(&self) -> ManagerView {
        ManagerView {
            workspace: self.workspace@,
            file: self.file@,
            last_signature: self.last_signature,
            last_write: self.last_write,
        }
    }
}

/// A session file that is to be written.
#[derive(Debug)]
pub struct SessionWrite {
    pub file: PathBuf,
    /// The directory to make first, with its parents.
    pub directory: Option<PathBuf>,
    pub signature: u64,
}

/// The file that a session is loaded from and saved to: the named one, else
/// the latest of the workspace, else the default one.
pub open spec fn managed_file(
    config: SessionConfigView,
    workspace: Seq<char>,
    files: Seq<SessionFile>,
) -> Seq<char> {
    let k = latest(files, workspace_key(workspace));
    if config.name is None && 0 <= k < files.len() {
        joined(config.dir, files[k].name@)
    } else {
        joined(config.dir, session_file_name(workspace, config.name))
    }
}

/// What tells one text of a session from another.
pub open spec fn signature_of(contents: Seq<char>) -> u64 {
    DefaultHasher::spec_finish(seq![encode_utf8(contents)])
}

fn sign(contents: &str) -> (r: u64)
    ensures
        r == signature_of(contents@),
{
    let mut hasher = DefaultHasher::new();
    hasher.write(contents.as_bytes());
    assert(hasher@ =~= seq![encode_utf8(contents@)]);
    hasher.finish()
}

/// The time from `then` to `now`, or 0 if that lies ahead.
pub open spec fn elapsed(then: u64, now: u64) -> int {
    if now >= then {
        now - then
    } else {
        0
    }
}

/// Whether an automatic write is due.
pub open spec fn write_due(v: ManagerView, now: u64) -> bool {
    elapsed(v.last_write, now) >= SAVE_INTERVAL
}

/// The text that an automatic save writes: one that differs from the last one
/// written, when a write is due.
pub open spec fn automatic_write(v: ManagerView, now: u64, contents: Option<Seq<char>>) -> Option<
    Seq<char>,
> {
    match contents {
        Some(c) => if write_due(v, now) && signature_of(c) != v.last_signature {
            Some(c)
        } else {
            None
        },
        None => None,
    }
}

/// Whether `w` writes the text `c` to the file of `v`.
pub open spec fn writes(w: SessionWrite, v: ManagerView, c: Seq<char>) -> bool {
    &&& w.file@ == v.file
    &&& path_text(w.directory) == parent(v.file)
    &&& w.signature == signature_of(c)
}

/// `v` after a write that was tried at `now`.
pub open spec fn after_write(v: ManagerView, signature: u64, ok: bool, now: u64) -> ManagerView {
    ManagerView {
        last_signature: if ok {
            signature
        } else {
            v.last_signature
        },
        last_write: now,
        ..v
    }
}

impl SessionManager {
    /// The manager of the session of a workspace. `files` are those of the
    /// session directory, none if it cannot be read.
    pub fn new(
        config: &SessionConfig,
        workspace: PathBuf,
        files: &Vec<SessionFile>,
        now: u64,
    ) -> (r: SessionManager)
        ensures
            r@ == (ManagerView {
                workspace: workspace@,
                file: managed_file(config@, workspace@, files@),
                last_signature: 0,
                last_write: now,
            }),
    {
        // Without an explicit session name, open the project's most recently
        // updated session (the default one or any named one); saving then
        // goes back to that same file, keeping it the most recent one.
        let file = match &config.name {
            Some(_) => config.file_for(&workspace),
            None => match latest_session_file(files, &workspace) {
                Some(i) => config.dir.join(files[i].name.as_str()),
                None => config.file_for(&workspace),
            },
        };
        SessionManager { file, workspace, last_signature: 0, last_write: now }
    }

    /// The session file.
    pub fn file(&self) -> (r: &PathBuf)
        ensures
            r@ == self@.file,
    {
        &self.file
    }

    /// Whether an automatic write is due: there is at most one per
    /// [`SAVE_INTERVAL`].
    pub fn due(&self, now: u64) -> (r: bool)
        ensures
            r == write_due(self@, now),
    {
        now >= self.last_write && now - self.last_write >= SAVE_INTERVAL
    }

    fn write_of(&self, contents: &str) -> (r: SessionWrite)
        ensures
            writes(r, self@, contents@),
    {
        SessionWrite {
            file: self.file.clone(),
            directory: self.file.parent(),
            signature: sign(contents),
        }
    }

    /// Saves the session if it changed since the last write, throttled to
    /// at most one write per [`SAVE_INTERVAL`]. `contents` is the text of the
    /// session, if there is anything worth saving.
    pub fn save_if_changed(&self, now: u64, contents: &Option<String>) -> (r: Option<SessionWrite>)
        ensures
            match r {
                Some(w) => automatic_write(self@, now, opt_text(*contents)) matches Some(c)
                    && writes(w, self@, c),
                None => automatic_write(self@, now, opt_text(*contents)) is None,
            },
    {
        if !self.due(now) {
            return None;
        }
        match contents {
            None => None,
            Some(text) => {
                let write = self.write_of(text.as_str());
                if write.signature == self.last_signature {
                    return None;
                }
                Some(write)
            },
        }
    }

    /// Saves the session unconditionally (used on exit), if there is anything
    /// worth saving.
    pub fn save(&mut self, now: u64, contents: &Option<String>) -> (r: Option<SessionWrite>)
        ensures
            final(self)@ == (ManagerView {
                last_write: if now >= SAVE_INTERVAL {
                    (now - SAVE_INTERVAL) as u64
                } else {
                    0
                },
                ..old(self)@
            }),
            match r {
                Some(w) => *contents matches Some(c) && writes(w, old(self)@, c@),
                None => *contents is None,
            },
    {
        self.last_write = if now >= SAVE_INTERVAL {
            now - SAVE_INTERVAL
        } else {
            0
        };
        match contents {
            None => None,
            Some(text) => Some(self.write_of(text.as_str())),
        }
    }

    /// Takes note of a write that was tried. One that failed is not retried
    /// on every redraw.
    pub fn written(&mut self, write: &SessionWrite, ok: bool, now: u64)
        ensures
            final(self)@ == after_write(old(self)@, write.signature, ok, now),
    {
        if ok {
            self.last_signature = write.signature;
        }
        self.last_write = now;
    }
}

// ── Laws ─────────────────────────────────────────────────────────────────
/// Sanitizing a name leaves safe characters only, and every safe character of
/// the name is still there. A name that has no others stays as it is, so that
/// sanitizing twice is sanitizing once.
pub proof fn law_sanitized(s: Seq<char>)
    ensures
        sanitized(sanitized(s)) == sanitized(s),
        forall|i: int| 0 <= i < sanitized(s).len() ==> is_safe(#[trigger] sanitized(s)[i]),
        forall|i: int|
            0 <= i < s.len() && is_safe(#[trigger] s[i]) ==> sanitized(s).contains(s[i]),
        (forall|i: int| 0 <= i < s.len() ==> is_safe(#[trigger] s[i])) ==> sanitized(s) == s,
{
    if forall|i: int| 0 <= i < s.len() ==> is_safe(#[trigger] s[i]) {
        lemma_all_kept(s);
    }
    assert forall|i: int| 0 <= i < s.len() && is_safe(#[trigger] s[i]) implies sanitized(
        s,
    ).contains(s[i]) by {
        s.lemma_filter_contains(|c: char| is_safe(c), i);
    }
    let safe = |c: char| is_safe(c);
    let t = sanitized(s);
    assert forall|i: int| 0 <= i < t.len() implies is_safe(#[trigger] t[i]) by {
        s.lemma_filter_contains_rev(safe, t[i]);
    }
    lemma_all_kept(t);
}

proof fn lemma_all_kept(t: Seq<char>)
    requires
        forall|i: int| 0 <= i < t.len() ==> is_safe(#[trigger] t[i]),
    ensures
        sanitized(t) == t,
    decreases t.len(),
{
    reveal(Seq::filter);
    if t.len() > 0 {
        assert(is_safe(t[t.len() - 1]));
        lemma_all_kept(t.drop_last());
        assert(t.drop_last().push(t.last()) =~= t);
    } else {
        assert(sanitized(t) =~= t);
    }
}

/// The command line decides before the environment does.
pub proof fn law_command_line_decides(
    arg: SessionArgView,
    dir_arg: Option<Seq<char>>,
    env: Option<Seq<char>>,
    dir_env: Option<Seq<char>>,
    cache_dir: Seq<char>,
)
    ensures
        arg == SessionArgView::Disabled ==> session_config(arg, dir_arg, env, dir_env, cache_dir)
            is None,
        arg matches SessionArgView::Enabled(name) ==> {
            let c = session_config(arg, dir_arg, env, dir_env, cache_dir);
            &&& c is Some
            &&& c->0.name == (match name {
                Some(n) => Some(sanitized(n)),
                None => None,
            })
        },
        dir_arg matches Some(d) ==> (session_config(arg, dir_arg, env, dir_env, cache_dir)
            matches Some(c) ==> c.dir == d),
{
}

proof fn lemma_hex(n: nat, width: nat)
    ensures
        hex(n, width).len() == width,
        forall|i: int| 0 <= i < width ==> is_safe(#[trigger] hex(n, width)[i]),
    decreases width,
{
    if width > 0 {
        lemma_hex(n / 16, (width - 1) as nat);
        let h = hex(n, width);
        assert forall|i: int| 0 <= i < width implies is_safe(#[trigger] h[i]) by {
            if i < width - 1 {
                assert(h[i] == hex(n / 16, (width - 1) as nat)[i]);
            }
        }
    }
}

/// A session file lies directly in the session directory, whatever the
/// workspace and the name of the session.
pub proof fn law_session_file_in_dir(dir: Seq<char>, workspace: Seq<char>, name: Option<Seq<char>>)
    requires
        name matches Some(n) ==> n == sanitized(n),
    ensures
        parts(joined(dir, session_file_name(workspace, name))) == parts(dir).push(
            Part::Name(session_file_name(workspace, name)),
        ),
{
    let n = session_file_name(workspace, name);
    let key = workspace_key(workspace);
    lemma_hex(fnv(encode_utf8(workspace)) as nat, 16);
    reveal_strlit(".toml");
    reveal_strlit(".");
    reveal_strlit("..");
    if let Some(m) = name {
        law_sanitized(m);
    }
    assert forall|i: int| 0 <= i < n.len() implies is_safe(#[trigger] n[i]) by {
        if i < key.len() {
            assert(n[i] == key[i]);
        } else if let Some(m) = name {
            if i < key.len() + 1 {
                assert(n[i] == '.');
            } else if i < key.len() + 1 + m.len() {
                assert(n[i] == m[i - key.len() - 1]);
            } else {
                assert(n[i] == ".toml"@[i - key.len() - 1 - m.len()]);
            }
        } else {
            assert(n[i] == ".toml"@[i - key.len()]);
        }
    }
    lemma_last_index(n, '/');
    let k = last_index(n, '/');
    if k >= 0 {
        assert(is_safe(n[k]));
    }
    assert(is_name(n));
    lemma_join_name(dir, n);
}

/// The file of a session is one of those among which the latest session of
/// its workspace is looked for.
pub proof fn law_session_file_found(workspace: Seq<char>, name: Option<Seq<char>>)
    ensures
        is_session_file(session_file_name(workspace, name), workspace_key(workspace)),
{
    let n = session_file_name(workspace, name);
    let key = workspace_key(workspace);
    let rest = n.skip(key.len() as int);
    assert(n.take(key.len() as int) =~= key);
    match name {
        Some(m) => {
            reveal_strlit(".");
            reveal_strlit(".toml");
            assert(rest =~= "."@ + m + ".toml"@);
            assert(rest.take(1) =~= "."@);
            assert(rest.skip(rest.len() - 5) =~= ".toml"@);
        },
        None => {
            assert(rest =~= ".toml"@);
        },
    }
}

/// Sessions of one workspace with different names have different files.
pub proof fn law_named_sessions_differ(workspace: Seq<char>, a: Seq<char>, b: Seq<char>)
    ensures
        session_file_name(workspace, Some(a)) == session_file_name(workspace, Some(b)) ==> a == b,
        session_file_name(workspace, Some(a)) != session_file_name(workspace, None),
{
    let key = workspace_key(workspace);
    let (f, g) = (session_file_name(workspace, Some(a)), session_file_name(workspace, Some(b)));
    reveal_strlit(".");
    reveal_strlit(".toml");
    assert(f.subrange(key.len() as int + 1, f.len() - 5) =~= a);
    assert(g.subrange(key.len() as int + 1, g.len() - 5) =~= b);
    assert(session_file_name(workspace, None).len() == key.len() + 5);
    assert(f.len() == key.len() + 6 + a.len());
}

/// The latest session file is a session file of the workspace, none was
/// modified later, and it is found wherever there is one.
pub proof fn law_latest(files: Seq<SessionFile>, key: Seq<char>)
    ensures
        ({
            let k = latest(files, key);
            &&& -1 <= k < files.len()
            &&& k >= 0 ==> is_session_file(files[k].name@, key)
            &&& forall|i: int|
                0 <= i < files.len() && is_session_file((#[trigger] files[i]).name@, key) ==> k >= 0
                    && not_older(files[i].modified, files[k].modified)
            &&& forall|i: int|
                k < i < files.len() && is_session_file((#[trigger] files[i]).name@, key) ==> k >= 0
                    && !not_older(files[k].modified, files[i].modified)
        }),
    decreases files.len(),
{
    if files.len() > 0 {
        let before = files.drop_last();
        law_latest(before, key);
        let j = latest(before, key);
        let k = latest(files, key);
        assert forall|i: int|
            0 <= i < files.len() && is_session_file((#[trigger] files[i]).name@, key) implies k >= 0
            && not_older(files[i].modified, files[k].modified) by {
            if i < before.len() {
                assert(before[i] == files[i]);
                assert(j >= 0 && before[j] == files[j]);
            }
        }
        assert forall|i: int|
            k < i < files.len() && is_session_file((#[trigger] files[i]).name@, key) implies k >= 0
            && !not_older(files[k].modified, files[i].modified) by {
            if i < before.len() {
                assert(before[i] == files[i]);
            }
        }
    }
}

/// Without a name, the session that was saved last is opened again: the one
/// whose file is newer than all other session files of the workspace.
pub proof fn law_last_session_reopened(
    config: SessionConfigView,
    workspace: Seq<char>,
    files: Seq<SessionFile>,
    i: int,
)
    requires
        config.name is None,
        0 <= i < files.len(),
        is_session_file(files[i].name@, workspace_key(workspace)),
        forall|j: int|
            0 <= j < files.len() && j != i && is_session_file(
                (#[trigger] files[j]).name@,
                workspace_key(workspace),
            ) ==> !not_older(files[i].modified, files[j].modified),
    ensures
        managed_file(config, workspace, files) == joined(config.dir, files[i].name@),
{
    let key = workspace_key(workspace);
    law_latest(files, key);
    let k = latest(files, key);
    assert(is_session_file(files[i].name@, key));
    assert(k >= 0 && not_older(files[i].modified, files[k].modified));
}

/// After a write, the next automatic write comes no sooner than
/// [`SAVE_INTERVAL`] later; and a text that was written is not written again.
pub proof fn law_throttled(v: ManagerView, signature: u64, ok: bool, then: u64, now: u64, c: Seq<char>)
    ensures
        now < then + SAVE_INTERVAL ==> automatic_write(
            after_write(v, signature, ok, then),
            now,
            Some(c),
        ) is None,
        ok && signature == signature_of(c) ==> automatic_write(
            after_write(v, signature, ok, then),
            now,
            Some(c),
        ) is None,
{
}

} // verus!

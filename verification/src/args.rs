//! The command line.
use crate::disk::Disk;
use crate::path::{path_text, PathBuf};
use crate::text::{
    chars_of, concat, decimal, end_without, find_last, is_digit, last_index, lemma_decimal,
    lemma_last_index, lemma_number_decimal, number, opt_text, parse_number, same, starts_with,
    string_of, texts, trim_end_of,
};
use indexmap::IndexMap;
use vstd::prelude::*;

verus! {

// ── Files with their positions ───────────────────────────────────────────
/// A hash table that keeps the order in which keys were first inserted.
#[verifier::external_type_specification]
#[verifier::external_body]
#[verifier::reject_recursive_types(K)]
#[verifier::reject_recursive_types(V)]
#[verifier::reject_recursive_types(S)]
pub struct ExIndexMap<K, V, S>(indexmap::IndexMap<K, V, S>);

/// The files of a table with their positions (row and column), in the order
/// of the table.
pub uninterp spec fn positions_in(files: IndexMap<String, Vec<(usize, usize)>>) -> Seq<
    (Seq<char>, Seq<(usize, usize)>),
>;

/// The value of a key in a list of keys with their values.
pub open spec fn value_of(s: Seq<(Seq<char>, Seq<(usize, usize)>)>, k: Seq<char>) -> Option<
    Seq<(usize, usize)>,
>
    decreases s.len(),
{
    if s.len() == 0 {
        None
    } else if s[0].0 == k {
        Some(s[0].1)
    } else {
        value_of(s.skip(1), k)
    }
}

/// `s` with a new value for a key: in its place, or at the end if the key is
/// new.
pub open spec fn with_value(
    s: Seq<(Seq<char>, Seq<(usize, usize)>)>,
    k: Seq<char>,
    v: Seq<(usize, usize)>,
) -> Seq<(Seq<char>, Seq<(usize, usize)>)>
    decreases s.len(),
{
    if s.len() == 0 {
        seq![(k, v)]
    } else if s[0].0 == k {
        seq![(k, v)] + s.skip(1)
    } else {
        seq![s[0]] + with_value(s.skip(1), k, v)
    }
}

/// `IndexMap::new` makes a table without any key.
#[verifier::external_body]
fn no_files() -> (r: IndexMap<String, Vec<(usize, usize)>>)
    ensures
        positions_in(r) == Seq::<(Seq<char>, Seq<(usize, usize)>)>::empty(),
{
    IndexMap::new()
}

/// `IndexMap::get` gives the value of a key, if the table has the key.
#[verifier::external_body]
fn positions_of<'a>(files: &'a IndexMap<String, Vec<(usize, usize)>>, key: &str) -> (r: Option<
    &'a Vec<(usize, usize)>,
>)
    ensures
        match r {
            Some(v) => value_of(positions_in(*files), key@) == Some(v@),
            None => value_of(positions_in(*files), key@) is None,
        },
{
    files.get(key)
}

/// `IndexMap::insert` sets the value of a key. A key that the table has keeps
/// its place, a new one comes last. The value that the key had is handed back.
#[verifier::external_body]
fn set_positions(
    files: &mut IndexMap<String, Vec<(usize, usize)>>,
    key: String,
    positions: Vec<(usize, usize)>,
) -> (r: Option<Vec<(usize, usize)>>)
    ensures
        positions_in(*final(files)) == with_value(positions_in(*old(files)), key@, positions@),
        match r {
            Some(v) => value_of(positions_in(*old(files)), key@) == Some(v@),
            None => value_of(positions_in(*old(files)), key@) is None,
        },
{
    files.insert(key, positions)
}

/// `IndexMap::first` gives the first key with its value, if there is one.
#[verifier::external_body]
fn first_file<'a>(files: &'a IndexMap<String, Vec<(usize, usize)>>) -> (r: Option<
    (&'a String, &'a Vec<(usize, usize)>),
>)
    ensures
        match r {
            Some((k, v)) => positions_in(*files).len() > 0 && positions_in(*files)[0] == (k@, v@),
            None => positions_in(*files).len() == 0,
        },
{
    files.first()
}

/// `s` with one more position of a file.
pub open spec fn with_position(
    s: Seq<(Seq<char>, Seq<(usize, usize)>)>,
    file: Seq<char>,
    at: (usize, usize),
) -> Seq<(Seq<char>, Seq<(usize, usize)>)> {
    match value_of(s, file) {
        Some(v) => with_value(s, file, v.push(at)),
        None => with_value(s, file, seq![at]),
    }
}

/// Copies positions.
fn copy_positions(v: &Vec<(usize, usize)>) -> (r: Vec<(usize, usize)>)
    ensures
        r@ == v@,
{
    let mut out: Vec<(usize, usize)> = Vec::new();
    let mut i: usize = 0;
    while i < v.len()
        invariant
            i <= v@.len(),
            out@ == v@.take(i as int),
        decreases v@.len() - i,
    {
        out.push(v[i]);
        assert(out@ =~= v@.take(i + 1));
        i += 1;
    }
    assert(out@ =~= v@);
    out
}

/// Adds a position of a file.
fn add_position(
    files: &mut IndexMap<String, Vec<(usize, usize)>>,
    file: String,
    at: (usize, usize),
)
    ensures
        positions_in(*final(files)) == with_position(positions_in(*old(files)), file@, at),
{
    let mut positions = match positions_of(files, file.as_str()) {
        Some(v) => copy_positions(v),
        None => Vec::new(),
    };
    let ghost before = positions@;
    positions.push(at);
    assert(value_of(positions_in(*files), file@) is None ==> positions@ =~= seq![at]);
    set_positions(files, file, positions);
}

// ── Positions in arguments ───────────────────────────────────────────────
/// A position in a file, counted from 0.
#[derive(Debug, Clone, Copy, PartialEq, Eq, Structural)]
pub struct Position {
    pub row: usize,
    pub col: usize,
}

/// A number counted from 1, counted from 0; 0 stays 0.
pub open spec fn from_zero(n: nat) -> nat {
    if n > 0 {
        (n - 1) as nat
    } else {
        0
    }
}

fn count_from_zero(n: usize) -> (r: usize)
    ensures
        r == from_zero(n as nat),
{
    if n > 0 {
        n - 1
    } else {
        0
    }
}

/// A path with the row and column behind it, as in `file.rs:10:2`.
pub open spec fn path_row_col(s: Seq<char>) -> Option<(Seq<char>, nat, nat)> {
    let t = trim_end_of(s, ':');
    let k = last_index(t, ':');
    let j = last_index(t.take(k), ':');
    if k < 0 || j < 0 {
        None
    } else {
        match (number(t.skip(k + 1)), number(t.subrange(j + 1, k))) {
            (Some(col), Some(row)) => Some((t.take(j), from_zero(row), from_zero(col))),
            _ => None,
        }
    }
}

/// A path with the row behind it, as in `file.rs:10`.
pub open spec fn path_row(s: Seq<char>) -> Option<(Seq<char>, nat, nat)> {
    let t = trim_end_of(s, ':');
    let k = last_index(t, ':');
    if k < 0 {
        None
    } else {
        match number(t.skip(k + 1)) {
            Some(row) => Some((t.take(k), from_zero(row), 0)),
            None => None,
        }
    }
}

/// The path and the position that an argument stands for. What exists under
/// the whole argument goes before a path with a position.
pub open spec fn file_arg(s: Seq<char>, disk: Disk) -> (Seq<char>, nat, nat) {
    if disk.present(s) {
        (s, 0, 0)
    } else {
        match path_row_col(s) {
            Some(f) => f,
            None => match path_row(s) {
                Some(f) => f,
                None => (s, 0, 0),
            },
        }
    }
}

/// A path with a position, as a mathematical value.
pub open spec fn placed(f: (PathBuf, Position)) -> (Seq<char>, nat, nat) {
    (f.0@, f.1.row as nat, f.1.col as nat)
}

/// Paths with positions, as mathematical values.
pub open spec fn placed_all(s: Seq<(PathBuf, Position)>) -> Seq<(Seq<char>, nat, nat)> {
    Seq::new(s.len(), |i: int| placed(s[i]))
}

/// Cutting a text that was cut before.
proof fn lemma_cuts(s: Seq<char>, end: int, k: int, j: int)
    requires
        0 <= j <= k < end <= s.len(),
    ensures
        s.take(end).take(k) == s.take(k),
        s.take(end).take(j) == s.subrange(0, j),
        s.take(end).skip(k + 1) == s.subrange(k + 1, end),
        j < k ==> s.take(end).subrange(j + 1, k) == s.subrange(j + 1, k),
{
    assert(s.take(end).take(k) =~= s.take(k));
    assert(s.take(end).take(j) =~= s.subrange(0, j));
    assert(s.take(end).skip(k + 1) =~= s.subrange(k + 1, end));
    if j < k {
        assert(s.take(end).subrange(j + 1, k) =~= s.subrange(j + 1, k));
    }
}

/// Split file.rs:10:2 into [`PathBuf`], row and col.
///
/// Does not validate if file.rs is a file or directory.
#[verifier::spinoff_prover]
fn split_path_row_col(s: &str) -> (r: Option<(PathBuf, Position)>)
    ensures
        match r {
            Some(f) => path_row_col(s@) == Some(placed(f)),
            None => path_row_col(s@) is None,
        },
{
    let chars = chars_of(s);
    let end = end_without(&chars, ':');
    let ghost t = trim_end_of(s@, ':');
    assert(chars@.take(end as int) =~= t);
    let k = match find_last(&chars, end, ':') {
        Some(k) => k,
        None => {
            return None;
        },
    };
    proof {
        lemma_cuts(chars@, end as int, k as int, k as int);
    }
    let j = match find_last(&chars, k, ':') {
        Some(j) => j,
        None => {
            return None;
        },
    };
    proof {
        lemma_cuts(chars@, end as int, k as int, j as int);
    }
    let col = match parse_number(&chars, k + 1, end) {
        Some(n) => n,
        None => {
            return None;
        },
    };
    let row = match parse_number(&chars, j + 1, k) {
        Some(n) => n,
        None => {
            return None;
        },
    };
    let text = string_of(&chars, 0, j);
    let path = PathBuf { text };
    Some((path, Position { row: count_from_zero(row), col: count_from_zero(col) }))
}

/// Split file.rs:10 into [`PathBuf`] and row.
///
/// Does not validate if file.rs is a file or directory.
fn split_path_row(s: &str) -> (r: Option<(PathBuf, Position)>)
    ensures
        match r {
            Some(f) => path_row(s@) == Some(placed(f)),
            None => path_row(s@) is None,
        },
{
    let chars = chars_of(s);
    let end = end_without(&chars, ':');
    let ghost t = trim_end_of(s@, ':');
    assert(chars@.take(end as int) =~= t);
    let k = match find_last(&chars, end, ':') {
        Some(k) => k,
        None => {
            return None;
        },
    };
    proof {
        lemma_cuts(chars@, end as int, k as int, k as int);
    }
    let row = match parse_number(&chars, k + 1, end) {
        Some(n) => n,
        None => {
            return None;
        },
    };
    let text = string_of(&chars, 0, k);
    let path = PathBuf { text };
    Some((path, Position { row: count_from_zero(row), col: 0 }))
}

/// Parse arg into [`PathBuf`] and position.
pub fn parse_file(s: &str, disk: &Disk) -> (r: (PathBuf, Position))
    ensures
        placed(r) == file_arg(s@, *disk),
{
    let whole = PathBuf::from(s);
    if disk.is_present(&whole) {
        return (whole, Position { row: 0, col: 0 });
    }
    if let Some(f) = split_path_row_col(s) {
        return f;
    }
    if let Some(f) = split_path_row(s) {
        return f;
    }
    (whole, Position { row: 0, col: 0 })
}

// ── Arguments ────────────────────────────────────────────────────────────
/// How views are split.
#[derive(Debug, Clone, Copy, PartialEq, Eq, Structural)]
pub enum Layout {
    Horizontal,
    Vertical,
}

/// What the command line says of the session.
#[derive(Debug)]
pub enum SessionArg {
    /// Nothing: the environment decides.
    Unspecified,
    /// `--session [NAME]`
    Enabled(Option<String>),
    /// `--no-session`
    Disabled,
}

/// What the command line says of the session, as a mathematical value.
pub enum SessionArgView {
    Unspecified,
    Enabled(Option<Seq<char>>),
    Disabled,
}

impl View for SessionArg {
    type V = SessionArgView;

    open spec fn view(&self) -> SessionArgView {
        match self {
            SessionArg::Unspecified => SessionArgView::Unspecified,
            SessionArg::Enabled(name) => SessionArgView::Enabled(opt_text(*name)),
            SessionArg::Disabled => SessionArgView::Disabled,
        }
    }
}

/// What the command line says.
#[derive(Debug)]
pub struct Args {
    pub display_help: bool,
    pub display_version: bool,
    pub health: bool,
    pub health_arg: Option<String>,
    pub load_tutor: bool,
    pub fetch_grammars: bool,
    pub build_grammars: bool,
    pub strict: bool,
    pub dry_run: bool,
    pub split: Option<Layout>,
    pub verbosity: u64,
    pub log_file: Option<PathBuf>,
    pub config_file: Option<PathBuf>,
    pub config_dir: Option<PathBuf>,
    pub languages_file: Option<PathBuf>,
    pub runtime_dir: Option<PathBuf>,
    pub session: SessionArg,
    pub session_dir: Option<PathBuf>,
    /// The files to open, each with the positions (row and column) to go to.
    pub files: IndexMap<String, Vec<(usize, usize)>>,
    pub working_directory: Option<PathBuf>,
}

/// What the command line says, as a mathematical value.
pub struct ArgsView {
    pub display_help: bool,
    pub display_version: bool,
    pub health: bool,
    pub health_arg: Option<Seq<char>>,
    pub load_tutor: bool,
    pub fetch_grammars: bool,
    pub build_grammars: bool,
    pub strict: bool,
    pub dry_run: bool,
    pub split: Option<Layout>,
    pub verbosity: nat,
    pub log_file: Option<Seq<char>>,
    pub config_file: Option<Seq<char>>,
    pub config_dir: Option<Seq<char>>,
    pub languages_file: Option<Seq<char>>,
    pub runtime_dir: Option<Seq<char>>,
    pub session: SessionArgView,
    pub session_dir: Option<Seq<char>>,
    pub files: Seq<(Seq<char>, Seq<(usize, usize)>)>,
    pub working_directory: Option<Seq<char>>,
}

impl View for Args {
    type V = ArgsView;

    open spec fn view(&self) -> ArgsView {
        ArgsView {
            display_help: self.display_help,
            display_version: self.display_version,
            health: self.health,
            health_arg: opt_text(self.health_arg),
            load_tutor: self.load_tutor,
            fetch_grammars: self.fetch_grammars,
            build_grammars: self.build_grammars,
            strict: self.strict,
            dry_run: self.dry_run,
            split: self.split,
            verbosity: self.verbosity as nat,
            log_file: path_text(self.log_file),
            config_file: path_text(self.config_file),
            config_dir: path_text(self.config_dir),
            languages_file: path_text(self.languages_file),
            runtime_dir: path_text(self.runtime_dir),
            session: self.session@,
            session_dir: path_text(self.session_dir),
            files: positions_in(self.files),
            working_directory: path_text(self.working_directory),
        }
    }
}

/// An empty command line.
pub open spec fn no_args() -> ArgsView {
    ArgsView {
        display_help: false,
        display_version: false,
        health: false,
        health_arg: None,
        load_tutor: false,
        fetch_grammars: false,
        build_grammars: false,
        strict: false,
        dry_run: false,
        split: None,
        verbosity: 0,
        log_file: None,
        config_file: None,
        config_dir: None,
        languages_file: None,
        runtime_dir: None,
        session: SessionArgView::Unspecified,
        session_dir: None,
        files: Seq::empty(),
        working_directory: None,
    }
}

impl Default for Args {
    fn default() -> (r: Args)
        ensures
            r@ == no_args(),
    {
        Args {
            display_help: false,
            display_version: false,
            health: false,
            health_arg: None,
            load_tutor: false,
            fetch_grammars: false,
            build_grammars: false,
            strict: false,
            dry_run: false,
            split: None,
            verbosity: 0,
            log_file: None,
            config_file: None,
            config_dir: None,
            languages_file: None,
            runtime_dir: None,
            session: SessionArg::Unspecified,
            session_dir: None,
            files: no_files(),
            working_directory: None,
        }
    }
}

/// The command line, as far as it goes without the file system: the files are
/// still as they were written.
#[derive(Debug)]
pub struct ParsedArgs {
    /// Everything but the files.
    pub args: Args,
    /// The row of the first position, from `+N` or `+`; 0 if there is none.
    pub line_number: usize,
    /// The files as they were written, in their order, with their positions.
    pub file_args: Vec<(PathBuf, Position)>,
}

/// The command line, as far as it goes without the file system, as a
/// mathematical value.
pub struct ParsedView {
    pub args: ArgsView,
    pub line_number: nat,
    pub file_args: Seq<(Seq<char>, nat, nat)>,
}

impl View for ParsedArgs {
    type V = ParsedView;

    open spec fn view(&self) -> ParsedView {
        ParsedView {
            args: self.args@,
            line_number: self.line_number as nat,
            file_args: placed_all(self.file_args@),
        }
    }
}

/// Whether a text begins with another.
pub open spec fn begins(s: Seq<char>, lead: Seq<char>) -> bool {
    lead.is_prefix_of(s)
}

/// `v` with one more file.
pub open spec fn with_file(v: ParsedView, s: Seq<char>, disk: Disk) -> ParsedView {
    ParsedView { file_args: v.file_args.push(file_arg(s, disk)), ..v }
}

/// `v` with several more files.
pub open spec fn with_files(v: ParsedView, s: Seq<Seq<char>>, disk: Disk) -> ParsedView
    decreases s.len(),
{
    if s.len() == 0 {
        v
    } else {
        with_file(with_files(v, s.drop_last(), disk), s.last(), disk)
    }
}

/// `v` after letters that stand for short options.
pub open spec fn short_options(v: ArgsView, s: Seq<char>) -> Result<ArgsView, Seq<char>>
    decreases s.len(),
{
    if s.len() == 0 {
        Ok(v)
    } else if s[0] == 'v' {
        short_options(ArgsView { verbosity: v.verbosity + 1, ..v }, s.skip(1))
    } else if s[0] == 'V' {
        short_options(ArgsView { display_version: true, ..v }, s.skip(1))
    } else if s[0] == 'h' {
        short_options(ArgsView { display_help: true, ..v }, s.skip(1))
    } else {
        Err("unexpected short arg "@ + seq![s[0]])
    }
}

/// `v` after an option that stands alone, if `a` is one.
pub open spec fn lone_option(v: ArgsView, a: Seq<char>) -> Option<ArgsView> {
    if a == "--version"@ {
        Some(ArgsView { display_version: true, ..v })
    } else if a == "--help"@ {
        Some(ArgsView { display_help: true, ..v })
    } else if a == "--strict"@ {
        Some(ArgsView { strict: true, ..v })
    } else if a == "--dry-run"@ {
        Some(ArgsView { dry_run: true, ..v })
    } else if a == "--tutor"@ {
        Some(ArgsView { load_tutor: true, ..v })
    } else if a == "--no-session"@ {
        Some(ArgsView { session: SessionArgView::Disabled, ..v })
    } else {
        None
    }
}

/// The layout that an option asks for.
pub open spec fn split_option(a: Seq<char>) -> Option<Layout> {
    if a == "--vsplit"@ {
        Some(Layout::Vertical)
    } else if a == "--hsplit"@ {
        Some(Layout::Horizontal)
    } else {
        None
    }
}

/// Whether an option takes the next argument as its value.
pub open spec fn takes_value(a: Seq<char>) -> bool {
    ||| a == "-g"@
    ||| a == "--grammar"@
    ||| a == "-c"@
    ||| a == "--config"@
    ||| a == "--config-dir"@
    ||| a == "--languages"@
    ||| a == "--runtime-dir"@
    ||| a == "--log"@
    ||| a == "-w"@
    ||| a == "--working-dir"@
    ||| a == "--session-dir"@
}

/// `v` after an option with its value, or with none where the command line
/// ends.
pub open spec fn valued_option(
    v: ArgsView,
    a: Seq<char>,
    value: Option<Seq<char>>,
    disk: Disk,
) -> Result<ArgsView, Seq<char>> {
    if a == "-g"@ || a == "--grammar"@ {
        if value == Some("fetch"@) {
            Ok(ArgsView { fetch_grammars: true, ..v })
        } else if value == Some("build"@) {
            Ok(ArgsView { build_grammars: true, ..v })
        } else {
            Err("--grammar must be followed by either 'fetch' or 'build'"@)
        }
    } else if a == "-c"@ || a == "--config"@ {
        match value {
            Some(t) => if disk.file_at(t) {
                Ok(ArgsView { config_file: value, ..v })
            } else {
                Err("config file does not exist: "@ + t)
            },
            None => Err("--config must specify a path to read"@),
        }
    } else if a == "--config-dir"@ {
        match value {
            Some(t) => if disk.present(t) && !disk.dir_at(t) {
                Err("--config-dir specified is not a directory: "@ + t)
            } else {
                Ok(ArgsView { config_dir: value, ..v })
            },
            None => Err("--config-dir must specify a path to a directory"@),
        }
    } else if a == "--languages"@ {
        match value {
            Some(t) => if disk.file_at(t) {
                Ok(ArgsView { languages_file: value, ..v })
            } else {
                Err("languages file does not exist: "@ + t)
            },
            None => Err("--languages must specify a path to a languages.toml file"@),
        }
    } else if a == "--runtime-dir"@ {
        match value {
            Some(t) => if disk.present(t) && !disk.dir_at(t) {
                Err("--runtime-dir specified is not a directory: "@ + t)
            } else {
                Ok(ArgsView { runtime_dir: value, ..v })
            },
            None => Err("--runtime-dir must specify a path to a directory"@),
        }
    } else if a == "--log"@ {
        match value {
            Some(_) => Ok(ArgsView { log_file: value, ..v }),
            None => Err("--log must specify a path to write"@),
        }
    } else if a == "--session-dir"@ {
        match value {
            Some(_) => Ok(ArgsView { session_dir: value, ..v }),
            None => Err("--session-dir must specify a path to a directory"@),
        }
    } else {
        match value {
            Some(t) => if disk.dir_at(t) {
                Ok(ArgsView { working_directory: value, ..v })
            } else {
                Err("--working-dir specified does not exist or is not a directory"@)
            },
            None => Err("--working-dir must specify an initial working directory"@),
        }
    }
}

/// The next argument, if it is there and does not look like an option.
pub open spec fn optional_value(rest: Seq<Seq<char>>) -> Option<Seq<char>> {
    if rest.len() > 1 && !begins(rest[1], "-"@) {
        Some(rest[1])
    } else {
        None
    }
}

/// `v` after the first of the arguments `rest`, and how many of them that
/// takes up; or the message for an argument that makes no sense.
pub open spec fn arg_step(v: ParsedView, rest: Seq<Seq<char>>, disk: Disk) -> Result<
    (ParsedView, nat),
    Seq<char>,
> {
    let a = rest[0];
    if let Some(args) = lone_option(v.args, a) {
        Ok((ParsedView { args, ..v }, 1))
    } else if let Some(layout) = split_option(a) {
        if v.args.split is Some {
            Err("can only set a split once of a specific type"@)
        } else {
            Ok((ParsedView { args: ArgsView { split: Some(layout), ..v.args }, ..v }, 1))
        }
    } else if a == "--health"@ {
        let value = optional_value(rest);
        Ok(
            (
                ParsedView {
                    args: ArgsView { health: true, health_arg: value, ..v.args },
                    ..v
                },
                if value is Some {
                    2
                } else {
                    1
                },
            ),
        )
    } else if a == "--session"@ {
        let value = optional_value(rest);
        Ok(
            (
                ParsedView {
                    args: ArgsView { session: SessionArgView::Enabled(value), ..v.args },
                    ..v
                },
                if value is Some {
                    2
                } else {
                    1
                },
            ),
        )
    } else if takes_value(a) {
        let value = if rest.len() > 1 {
            Some(rest[1])
        } else {
            None
        };
        match valued_option(v.args, a, value, disk) {
            Ok(args) => Ok((ParsedView { args, ..v }, 2)),
            Err(m) => Err(m),
        }
    } else if begins(a, "--"@) {
        Err("unexpected double dash argument: "@ + a)
    } else if begins(a, "-"@) {
        match short_options(v.args, a.skip(1)) {
            Ok(args) => Ok((ParsedView { args, ..v }, 1)),
            Err(m) => Err(m),
        }
    } else if a == "+"@ {
        Ok((ParsedView { line_number: usize::MAX as nat, ..v }, 1))
    } else if begins(a, "+"@) {
        match number(a.skip(1)) {
            Some(n) => Ok((ParsedView { line_number: from_zero(n), ..v }, 1)),
            None => Ok((with_file(v, a, disk), 1)),
        }
    } else {
        Ok((with_file(v, a, disk), 1))
    }
}

/// `v` after the arguments `rest`. After `--` only files follow.
pub open spec fn parsed(v: ParsedView, rest: Seq<Seq<char>>, disk: Disk) -> Result<
    ParsedView,
    Seq<char>,
>
    decreases rest.len(),
{
    if rest.len() == 0 {
        Ok(v)
    } else if rest[0] == "--"@ {
        Ok(with_files(v, rest.skip(1), disk))
    } else {
        match arg_step(v, rest, disk) {
            Ok((w, n)) => if n == 2 && rest.len() >= 2 {
                parsed(w, rest.skip(2), disk)
            } else {
                parsed(w, rest.skip(1), disk)
            },
            Err(m) => Err(m),
        }
    }
}

/// The number of characters of some texts.
pub open spec fn total_len(s: Seq<Seq<char>>) -> nat
    decreases s.len(),
{
    if s.len() == 0 {
        0
    } else {
        total_len(s.drop_last()) + s.last().len()
    }
}

/// `m` with one more character at its end.
fn with_char(m: &str, c: char) -> (r: String)
    ensures
        r@ == m@ + seq![c],
{
    let mut out = m.to_owned();
    out.push(c);
    assert(out@ =~= m@ + seq![c]);
    out
}

impl Args {
    fn lone(&mut self, a: &str) -> (r: bool)
        ensures
            match lone_option(old(self)@, a@) {
                Some(v) => r && final(self)@ == v,
                None => !r && *final(self) == *old(self),
            },
            final(self).verbosity == old(self).verbosity,
    {
        if same(a, "--version") {
            self.display_version = true;
        } else if same(a, "--help") {
            self.display_help = true;
        } else if same(a, "--strict") {
            self.strict = true;
        } else if same(a, "--dry-run") {
            self.dry_run = true;
        } else if same(a, "--tutor") {
            self.load_tutor = true;
        } else if same(a, "--no-session") {
            self.session = SessionArg::Disabled;
        } else {
            return false;
        }
        true
    }

    #[verifier::spinoff_prover]
    #[verifier::rlimit(30)]
    fn short(&mut self, letters: &Vec<char>, from: usize) -> (r: Result<(), String>)
        requires
            from <= letters@.len(),
            old(self).verbosity + letters@.len() <= u64::MAX,
        ensures
            match short_options(old(self)@, letters@.skip(from as int)) {
                Ok(v) => r is Ok && final(self)@ == v,
                Err(m) => r matches Err(e) && e@ == m,
            },
            final(self).verbosity <= old(self).verbosity + letters@.len() - from,
    {
        let mut i: usize = from;
        while i < letters.len()
            invariant
                from <= i <= letters@.len(),
                old(self).verbosity + letters@.len() <= u64::MAX,
                self.verbosity <= old(self).verbosity + i - from,
                short_options(old(self)@, letters@.skip(from as int)) == short_options(
                    self@,
                    letters@.skip(i as int),
                ),
            decreases letters@.len() - i,
        {
            assert(letters@.skip(i as int)[0] == letters@[i as int]);
            assert(letters@.skip(i as int).skip(1) =~= letters@.skip(i + 1));
            let c = letters[i];
            if c == 'v' {
                self.verbosity += 1;
            } else if c == 'V' {
                self.display_version = true;
            } else if c == 'h' {
                self.display_help = true;
            } else {
                return Err(with_char("unexpected short arg ", c));
            }
            i += 1;
        }
        Ok(())
    }

    fn valued(&mut self, a: &str, value: Option<&String>, disk: &Disk) -> (r: Result<(), String>)
        requires
            takes_value(a@),
        ensures
            match valued_option(
                old(self)@,
                a@,
                match value {
                    Some(t) => Some(t@),
                    None => None,
                },
                *disk,
            ) {
                Ok(v) => r is Ok && final(self)@ == v,
                Err(m) => r matches Err(e) && e@ == m,
            },
            final(self).verbosity == old(self).verbosity,
    {
        if same(a, "-g") || same(a, "--grammar") {
            if let Some(t) = value {
                if same(t.as_str(), "fetch") {
                    self.fetch_grammars = true;
                    return Ok(());
                }
                if same(t.as_str(), "build") {
                    self.build_grammars = true;
                    return Ok(());
                }
            }
            return Err("--grammar must be followed by either 'fetch' or 'build'".to_owned());
        }
        let path = match value {
            Some(t) => PathBuf::from(t.as_str()),
            None => {
                return Err(Self::missing_value(a));
            },
        };
        if same(a, "-c") || same(a, "--config") {
            if !disk.is_file(&path) {
                return Err(concat("config file does not exist: ", path.text.as_str()));
            }
            self.config_file = Some(path);
        } else if same(a, "--config-dir") {
            // A directory that does not exist yet is accepted; it is created
            // during initialization so that e.g. `hx --config-dir ./new
            // --grammar fetch` can bootstrap a fresh config directory.
            if disk.is_present(&path) && !disk.is_dir(&path) {
                return Err(
                    concat("--config-dir specified is not a directory: ", path.text.as_str()),
                );
            }
            self.config_dir = Some(path);
        } else if same(a, "--languages") {
            if !disk.is_file(&path) {
                return Err(concat("languages file does not exist: ", path.text.as_str()));
            }
            self.languages_file = Some(path);
        } else if same(a, "--runtime-dir") {
            // Like --config-dir, a directory that does not exist yet is
            // accepted; it is created during initialization.
            if disk.is_present(&path) && !disk.is_dir(&path) {
                return Err(
                    concat("--runtime-dir specified is not a directory: ", path.text.as_str()),
                );
            }
            self.runtime_dir = Some(path);
        } else if same(a, "--log") {
            self.log_file = Some(path);
        } else if same(a, "--session-dir") {
            self.session_dir = Some(path);
        } else {
            if !disk.is_dir(&path) {
                return Err(
                    "--working-dir specified does not exist or is not a directory".to_owned(),
                );
            }
            self.working_directory = Some(path);
        }
        Ok(())
    }

    /// What is said where the value of an option is missing.
    fn missing_value(a: &str) -> (r: String)
        requires
            takes_value(a@),
            a@ != "-g"@,
            a@ != "--grammar"@,
        ensures
            forall|v: ArgsView, disk: Disk|
                #[trigger] valued_option(v, a@, None, disk) == Err::<ArgsView, Seq<char>>(r@),
    {
        let message = if same(a, "-c") || same(a, "--config") {
            "--config must specify a path to read"
        } else if same(a, "--config-dir") {
            "--config-dir must specify a path to a directory"
        } else if same(a, "--languages") {
            "--languages must specify a path to a languages.toml file"
        } else if same(a, "--runtime-dir") {
            "--runtime-dir must specify a path to a directory"
        } else if same(a, "--log") {
            "--log must specify a path to write"
        } else if same(a, "--session-dir") {
            "--session-dir must specify a path to a directory"
        } else {
            "--working-dir must specify an initial working directory"
        };
        message.to_owned()
    }
}

/// Whether an option takes the next argument as its value.
fn is_valued(a: &str) -> (r: bool)
    ensures
        r == takes_value(a@),
{
    same(a, "-g") || same(a, "--grammar") || same(a, "-c") || same(a, "--config") || same(
        a,
        "--config-dir",
    ) || same(a, "--languages") || same(a, "--runtime-dir") || same(a, "--log") || same(a, "-w")
        || same(a, "--working-dir") || same(a, "--session-dir")
}

/// The argument behind the one at `i`, if it does not look like an option.
fn next_unless_option(argv: &Vec<String>, i: usize) -> (r: Option<String>)
    requires
        i < argv@.len(),
    ensures
        opt_text(r) == optional_value(texts(argv@).skip(i as int)),
{
    let len = argv.len();
    if i + 1 < len && !starts_with(argv[i + 1].as_str(), "-") {
        assert(texts(argv@).skip(i as int)[1] == argv@[i + 1]@);
        Some(argv[i + 1].clone())
    } else {
        proof {
            if i + 1 < argv@.len() {
                assert(texts(argv@).skip(i as int)[1] == argv@[i + 1]@);
            }
        }
        None
    }
}

impl ParsedArgs {
    fn add_file(&mut self, a: &str, disk: &Disk)
        ensures
            final(self)@ == with_file(old(self)@, a@, *disk),
            final(self).args == old(self).args,
    {
        let ghost before = self.file_args@;
        let f = parse_file(a, disk);
        self.file_args.push(f);
        assert(placed_all(self.file_args@) =~= placed_all(before).push(placed(f)));
    }

    /// Takes the argument at `i`, and the next one where it belongs to it.
    /// Hands back how many that was.
    fn step(&mut self, argv: &Vec<String>, i: usize, disk: &Disk) -> (r: Result<usize, String>)
        requires
            i < argv@.len(),
            old(self).args.verbosity + argv@[i as int]@.len() <= u64::MAX,
        ensures
            match arg_step(old(self)@, texts(argv@).skip(i as int), *disk) {
                Ok((v, n)) => r matches Ok(taken) && taken == n && final(self)@ == v && (n == 1 || n
                    == 2),
                Err(m) => r matches Err(e) && e@ == m,
            },
            r is Ok ==> final(self).args.verbosity <= old(self).args.verbosity
                + argv@[i as int]@.len(),
    {
        let ghost rest = texts(argv@).skip(i as int);
        let a = argv[i].as_str();
        assert(rest[0] == a@);
        if self.args.lone(a) {
            return Ok(1);
        }
        let layout = if same(a, "--vsplit") {
            Some(Layout::Vertical)
        } else if same(a, "--hsplit") {
            Some(Layout::Horizontal)
        } else {
            None
        };
        if layout.is_some() {
            if self.args.split.is_some() {
                return Err("can only set a split once of a specific type".to_owned());
            }
            self.args.split = layout;
            return Ok(1);
        }
        if same(a, "--health") {
            self.args.health = true;
            self.args.health_arg = next_unless_option(argv, i);
            return Ok(
                if self.args.health_arg.is_some() {
                    2
                } else {
                    1
                },
            );
        }
        if same(a, "--session") {
            let name = next_unless_option(argv, i);
            let taken: usize = if name.is_some() {
                2
            } else {
                1
            };
            self.args.session = SessionArg::Enabled(name);
            return Ok(taken);
        }
        if is_valued(a) {
            let len = argv.len();
            let value = if i + 1 < len {
                assert(rest[1] == argv@[i + 1]@);
                Some(&argv[i + 1])
            } else {
                None
            };
            return match self.args.valued(a, value, disk) {
                Ok(()) => Ok(2),
                Err(e) => Err(e),
            };
        }
        if starts_with(a, "--") {
            return Err(concat("unexpected double dash argument: ", a));
        }
        let letters = chars_of(a);
        proof {
            reveal_strlit("-");
            reveal_strlit("+");
        }
        if starts_with(a, "-") {
            return match self.args.short(&letters, 1) {
                Ok(()) => Ok(1),
                Err(e) => Err(e),
            };
        }
        if same(a, "+") {
            self.line_number = usize::MAX;
            return Ok(1);
        }
        if starts_with(a, "+") {
            assert(letters@.subrange(1, letters@.len() as int) =~= a@.skip(1));
            if let Some(n) = parse_number(&letters, 1, letters.len()) {
                self.line_number = count_from_zero(n);
                return Ok(1);
            }
        }
        self.add_file(a, disk);
        Ok(1)
    }
}

proof fn lemma_total_len(s: Seq<Seq<char>>, i: int)
    requires
        0 <= i <= s.len(),
    ensures
        total_len(s.take(i)) <= total_len(s),
        i < s.len() ==> total_len(s.take(i)) + s[i].len() == total_len(s.take(i + 1)),
    decreases s.len() - i,
{
    if i < s.len() {
        lemma_total_len(s, i + 1);
        assert(s.take(i + 1).drop_last() =~= s.take(i));
        assert(s.take(i + 1).last() == s[i]);
    } else {
        assert(s.take(i) =~= s);
    }
}

/// What a command line says, its program left out.
pub open spec fn command_line(argv: Seq<Seq<char>>, disk: Disk) -> Result<ParsedView, Seq<char>> {
    parsed(
        ParsedView { args: no_args(), line_number: 0, file_args: Seq::empty() },
        if argv.len() == 0 {
            argv
        } else {
            argv.skip(1)
        },
        disk,
    )
}

impl Args {
    /// Whether the session of the workspace is to be restored: only when no
    /// files are given.
    pub fn restores_session(&self) -> (r: bool)
        ensures
            r == (self@.files.len() == 0),
    {
        first_file(&self.files).is_none()
    }

    /// Reads a command line; its first argument is the program.
    pub fn parse_args(argv: &Vec<String>, disk: &Disk) -> (r: Result<ParsedArgs, String>)
        requires
            total_len(texts(argv@)) <= u64::MAX,
        ensures
            match command_line(texts(argv@), *disk) {
                Ok(v) => r matches Ok(p) && p@ == v,
                Err(m) => r matches Err(e) && e@ == m,
            },
    {
        let ghost all = texts(argv@);
        let mut out = ParsedArgs {
            args: Args::default(),
            line_number: 0,
            file_args: Vec::new(),
        };
        assert(placed_all(out.file_args@) =~= Seq::empty());
        let mut i: usize = 1;
        if argv.len() == 0 {
            assert(all.len() == 0);
            return Ok(out);
        }
        proof {
            lemma_total_len(all, 0);
        }
        assert(all.take(0) =~= Seq::empty());
        while i < argv.len()
            invariant
                1 <= i <= argv@.len(),
                all == texts(argv@),
                total_len(all) <= u64::MAX,
                out.args.verbosity <= total_len(all.take(i as int)),
                command_line(all, *disk) == parsed(out@, all.skip(i as int), *disk),
            decreases argv@.len() - i,
        {
            let ghost rest = all.skip(i as int);
            assert(rest[0] == argv@[i as int]@);
            if same(argv[i].as_str(), "--") {
                // stop parsing at this point, treat the remaining as files
                let ghost v = out@;
                let ghost files = all.skip(i + 1);
                assert(rest.skip(1) =~= files);
                let mut k: usize = i + 1;
                assert(files.take(0) =~= Seq::empty());
                while k < argv.len()
                    invariant
                        i + 1 <= k <= argv@.len(),
                        all == texts(argv@),
                        files == all.skip(i + 1),
                        out@ == with_files(v, files.take(k - i - 1), *disk),
                    decreases argv@.len() - k,
                {
                    assert(files.take(k - i).drop_last() =~= files.take(k - i - 1));
                    assert(files.take(k - i).last() == argv@[k as int]@);
                    out.add_file(argv[k].as_str(), disk);
                    k += 1;
                }
                assert(files.take(k - i - 1) =~= files);
                return Ok(out);
            }
            proof {
                lemma_total_len(all, i as int);
                lemma_total_len(all, i + 1);
            }
            let taken = match out.step(argv, i, disk) {
                Ok(taken) => taken,
                Err(e) => {
                    return Err(e);
                },
            };
            let len = argv.len();
            if taken == 2 && i + 1 < len {
                assert(rest.skip(2) =~= all.skip(i + 2));
                proof {
                    lemma_total_len(all, i + 1);
                }
                i += 2;
            } else {
                assert(rest.skip(1) =~= all.skip(i + 1));
                i += 1;
            }
        }
        assert(all.skip(i as int) =~= Seq::empty());
        Ok(out)
    }
}

// ── Resolving files ──────────────────────────────────────────────────────
/// The files with their positions, under their resolved names.
pub open spec fn files_at(
    resolved: Seq<Seq<char>>,
    placed: Seq<(Seq<char>, nat, nat)>,
) -> Seq<(Seq<char>, Seq<(usize, usize)>)>
    decreases resolved.len(),
{
    if resolved.len() == 0 || placed.len() == 0 {
        Seq::empty()
    } else {
        with_position(
            files_at(resolved.drop_last(), placed.drop_last()),
            resolved.last(),
            (placed.last().1 as usize, placed.last().2 as usize),
        )
    }
}

/// `s` with the row of the first position of the first file set, unless the
/// row is 0.
pub open spec fn with_line_number(
    s: Seq<(Seq<char>, Seq<(usize, usize)>)>,
    line: nat,
) -> Seq<(Seq<char>, Seq<(usize, usize)>)> {
    if line == 0 || s.len() == 0 || s[0].1.len() == 0 {
        s
    } else {
        s.update(0, (s[0].0, s[0].1.update(0, (line as usize, s[0].1[0].1))))
    }
}

impl ParsedArgs {
    /// Puts the files in, under the names that they resolve to before the
    /// working directory changes. Positions of one file come together.
    pub fn resolve(self, resolved: Vec<PathBuf>) -> (r: Args)
        requires
            resolved@.len() == self.file_args@.len(),
            self@.args.files.len() == 0,
        ensures
            r@ == (ArgsView {
                files: with_line_number(
                    files_at(
                        Seq::new(resolved@.len(), |i: int| resolved@[i]@),
                        self@.file_args,
                    ),
                    self@.line_number,
                ),
                ..self@.args
            }),
    {
        let ghost names = Seq::new(resolved@.len(), |i: int| resolved@[i]@);
        let ghost given = placed_all(self.file_args@);
        let mut args = self.args;
        let ghost start = args@;
        let mut i: usize = 0;
        assert(names.take(0) =~= Seq::empty());
        assert(args@.files =~= Seq::empty());
        while i < resolved.len()
            invariant
                i <= resolved@.len(),
                resolved@.len() == self.file_args@.len(),
                names == Seq::new(resolved@.len(), |i: int| resolved@[i]@),
                given == placed_all(self.file_args@),
                args@ == (ArgsView {
                    files: files_at(names.take(i as int), given.take(i as int)),
                    ..start
                }),
            decreases resolved@.len() - i,
        {
            let at = self.file_args[i].1;
            assert(names.take(i + 1).drop_last() =~= names.take(i as int));
            assert(given.take(i + 1).drop_last() =~= given.take(i as int));
            assert(names.take(i + 1).last() == resolved@[i as int]@);
            assert(given.take(i + 1).last() == placed(self.file_args@[i as int]));
            add_position(&mut args.files, resolved[i].text.clone(), (at.row, at.col));
            i += 1;
        }
        assert(names.take(i as int) =~= names);
        assert(given.take(i as int) =~= given);
        if self.line_number != 0 {
            let first = match first_file(&args.files) {
                Some((name, positions)) => Some((name.clone(), copy_positions(positions))),
                None => None,
            };
            if let Some((name, mut positions)) = first {
                if positions.len() > 0 {
                    let ghost before = positions@;
                    let ghost s = args@.files;
                    let col = positions[0].1;
                    positions.set(0, (self.line_number, col));
                    set_positions(&mut args.files, name, positions);
                    assert(with_value(s, s[0].0, positions@) =~= s.update(
                        0,
                        (s[0].0, positions@),
                    ));
                }
            }
        }
        args
    }
}

// ── Laws ─────────────────────────────────────────────────────────────────
/// Whether no file occurs twice.
pub open spec fn files_distinct(s: Seq<(Seq<char>, Seq<(usize, usize)>)>) -> bool {
    forall|i: int, j: int| 0 <= i < j < s.len() ==> (#[trigger] s[i]).0 != (#[trigger] s[j]).0
}

proof fn lemma_with_value(
    s: Seq<(Seq<char>, Seq<(usize, usize)>)>,
    k: Seq<char>,
    v: Seq<(usize, usize)>,
    f: Seq<char>,
)
    ensures
        value_of(with_value(s, k, v), f) == (if f == k {
            Some(v)
        } else {
            value_of(s, f)
        }),
    decreases s.len(),
{
    let r = with_value(s, k, v);
    if s.len() == 0 {
        assert(r.skip(1) =~= Seq::empty());
        assert(value_of(r.skip(1), f) is None);
    } else if s[0].0 == k {
        assert(r.skip(1) =~= s.skip(1));
    } else {
        lemma_with_value(s.skip(1), k, v, f);
        assert(r.skip(1) =~= with_value(s.skip(1), k, v));
    }
}

proof fn lemma_value_of(s: Seq<(Seq<char>, Seq<(usize, usize)>)>, k: Seq<char>)
    ensures
        value_of(s, k) is Some <==> exists|i: int| 0 <= i < s.len() && (#[trigger] s[i]).0 == k,
    decreases s.len(),
{
    if s.len() > 0 && s[0].0 != k {
        lemma_value_of(s.skip(1), k);
        if value_of(s, k) is Some {
            let i = choose|i: int| 0 <= i < s.skip(1).len() && (#[trigger] s.skip(1)[i]).0 == k;
            assert(s[i + 1].0 == k);
        }
        if exists|i: int| 0 <= i < s.len() && (#[trigger] s[i]).0 == k {
            let i = choose|i: int| 0 <= i < s.len() && (#[trigger] s[i]).0 == k;
            assert(s.skip(1)[i - 1].0 == k);
        }
    }
}

proof fn lemma_with_value_distinct(
    s: Seq<(Seq<char>, Seq<(usize, usize)>)>,
    k: Seq<char>,
    v: Seq<(usize, usize)>,
)
    requires
        files_distinct(s),
    ensures
        files_distinct(with_value(s, k, v)),
    decreases s.len(),
{
    let r = with_value(s, k, v);
    if s.len() > 0 {
        let rest = s.skip(1);
        assert(files_distinct(rest)) by {
            assert forall|i: int, j: int| 0 <= i < j < rest.len() implies (#[trigger] rest[i]).0
                != (#[trigger] rest[j]).0 by {
                assert(s[i + 1].0 != s[j + 1].0);
            }
        }
        lemma_value_of(rest, s[0].0);
        assert(value_of(rest, s[0].0) is None) by {
            if value_of(rest, s[0].0) is Some {
                let i = choose|i: int| 0 <= i < rest.len() && (#[trigger] rest[i]).0 == s[0].0;
                assert(s[0].0 != s[i + 1].0);
            }
        }
        let tail = if s[0].0 == k {
            rest
        } else {
            with_value(rest, k, v)
        };
        if s[0].0 != k {
            lemma_with_value_distinct(rest, k, v);
            lemma_with_value(rest, k, v, s[0].0);
        }
        lemma_value_of(tail, s[0].0);
        assert forall|i: int, j: int| 0 <= i < j < r.len() implies (#[trigger] r[i]).0
            != (#[trigger] r[j]).0 by {
            assert(r[j] == tail[j - 1]);
            if i > 0 {
                assert(r[i] == tail[i - 1]);
            }
        }
    }
}

/// The positions that were given for the file `f`, in their order.
pub open spec fn positions_given(
    resolved: Seq<Seq<char>>,
    placed: Seq<(Seq<char>, nat, nat)>,
    f: Seq<char>,
) -> Seq<(usize, usize)>
    decreases resolved.len(),
{
    if resolved.len() == 0 || placed.len() == 0 {
        Seq::empty()
    } else {
        let before = positions_given(resolved.drop_last(), placed.drop_last(), f);
        if resolved.last() == f {
            before.push((placed.last().1 as usize, placed.last().2 as usize))
        } else {
            before
        }
    }
}

/// Every file that was given occurs once, with all its positions in the order
/// in which they were given; and no other file occurs.
pub proof fn law_files_grouped(
    resolved: Seq<Seq<char>>,
    placed: Seq<(Seq<char>, nat, nat)>,
    f: Seq<char>,
)
    ensures
        files_distinct(files_at(resolved, placed)),
        value_of(files_at(resolved, placed), f) == (if positions_given(resolved, placed, f).len()
            == 0 {
            None
        } else {
            Some(positions_given(resolved, placed, f))
        }),
    decreases resolved.len(),
{
    if resolved.len() > 0 && placed.len() > 0 {
        let (r, p) = (resolved.drop_last(), placed.drop_last());
        let k = resolved.last();
        let at = (placed.last().1 as usize, placed.last().2 as usize);
        law_files_grouped(r, p, f);
        law_files_grouped(r, p, k);
        let s = files_at(r, p);
        let v = match value_of(s, k) {
            Some(v) => v.push(at),
            None => seq![at],
        };
        lemma_with_value(s, k, v, f);
        lemma_with_value_distinct(s, k, v);
        assert(positions_given(r, p, k).len() == 0 ==> seq![at] =~= positions_given(r, p, k).push(
            at,
        ));
    }
}

proof fn lemma_last_colon(a: Seq<char>, d: Seq<char>)
    requires
        forall|i: int| 0 <= i < d.len() ==> is_digit(#[trigger] d[i]),
    ensures
        last_index(a.push(':') + d, ':') == a.len(),
{
    let s = a.push(':') + d;
    lemma_last_index(s, ':');
    let k = last_index(s, ':');
    assert(s[a.len() as int] == ':');
    if k > a.len() {
        assert(s[k] == d[k - a.len() - 1]);
        assert(is_digit(d[k - a.len() - 1]));
    }
}

/// A path with a row and a column, counted from 1, is read back as it was
/// written.
pub proof fn law_position_read_back(p: Seq<char>, row: nat, col: nat)
    requires
        row <= usize::MAX,
        col <= usize::MAX,
    ensures
        path_row_col(p.push(':') + decimal(row).push(':') + decimal(col)) == Some(
            (p, from_zero(row), from_zero(col)),
        ),
        path_row(p.push(':') + decimal(row)) == Some((p, from_zero(row), 0nat)),
{
    lemma_decimal(row);
    lemma_decimal(col);
    let (r, c) = (decimal(row), decimal(col));
    let front = p.push(':') + r;
    let s = p.push(':') + r.push(':') + c;
    assert(s =~= front.push(':') + c);
    assert(s.last() == c.last() && is_digit(c[c.len() - 1]));
    lemma_last_colon(front, c);
    lemma_last_colon(p, r);
    assert(s.take(front.len() as int) =~= front);
    assert(s.skip(front.len() as int + 1) =~= c);
    assert(s.subrange(p.len() as int + 1, front.len() as int) =~= r);
    assert(s.take(p.len() as int) =~= p);
    assert(front.last() == r.last() && is_digit(r[r.len() - 1]));
    assert(front.skip(p.len() as int + 1) =~= r);
    assert(front.take(p.len() as int) =~= p);
    lemma_number_decimal(row);
    lemma_number_decimal(col);
}

} // verus!

//! Config files: where the layers lie, and what came of reading one.
use crate::dry_run::ReadOutcome;
use crate::path::{joined, path_texts, PathBuf};
use crate::text::concat;
use vstd::prelude::*;

verus! {

/// What came of reading a file.
#[derive(Debug)]
pub enum FileText {
    /// The text of the file.
    Read(String),
    /// There is no such file.
    Missing,
    /// The file is there, but could not be read, for the reason given.
    Failed(String),
}

/// A config file that was read.
#[derive(Debug)]
pub struct ConfigFile {
    pub path: PathBuf,
    pub text: FileText,
}

/// Why a configuration cannot be loaded, as a mathematical value.
pub enum ErrorView {
    BadConfig(Seq<char>),
    UnknownField(Seq<char>),
    Error(Seq<char>),
    Missing(Seq<char>),
}

/// Why a configuration cannot be loaded.
#[derive(Debug)]
pub enum ConfigLoadError {
    /// A file is not valid TOML, or holds what makes no sense.
    BadConfig(String),
    /// A file has a field at its top level that is not known.
    UnknownField(String),
    /// A file could not be read.
    Error(String),
    /// A file that was asked for explicitly does not exist.
    Missing(PathBuf),
}

impl View for ConfigLoadError {
    type V = ErrorView;

    open spec fn view(&self) -> ErrorView {
        match self {
            ConfigLoadError::BadConfig(m) => ErrorView::BadConfig(m@),
            ConfigLoadError::UnknownField(k) => ErrorView::UnknownField(k@),
            ConfigLoadError::Error(m) => ErrorView::Error(m@),
            ConfigLoadError::Missing(p) => ErrorView::Missing(p@),
        }
    }
}

/// How an error reads.
pub open spec fn error_text(e: ConfigLoadError) -> Seq<char> {
    match e {
        ConfigLoadError::BadConfig(m) => m@,
        ConfigLoadError::UnknownField(k) => "unknown field `"@ + k@
            + "`, expected one of `theme`, `keys`, `editor`"@,
        ConfigLoadError::Error(m) => m@,
        ConfigLoadError::Missing(p) => "config file does not exist: "@ + p@,
    }
}

impl ConfigLoadError {
    /// How the error reads.
    pub fn message(&self) -> (r: String)
        ensures
            r@ == error_text(*self),
    {
        match self {
            ConfigLoadError::BadConfig(m) => m.clone(),
            ConfigLoadError::UnknownField(k) => concat(
                concat("unknown field `", k.as_str()).as_str(),
                "`, expected one of `theme`, `keys`, `editor`",
            ),
            ConfigLoadError::Error(m) => m.clone(),
            ConfigLoadError::Missing(p) => concat("config file does not exist: ", p.text.as_str()),
        }
    }
}

impl Default for ConfigLoadError {
    fn default() -> (r: ConfigLoadError)
        ensures
            r@ == ErrorView::Error("place holder"@),
    {
        ConfigLoadError::Error("place holder".to_owned())
    }
}

/// The file `name` in each of some directories, the last directory first.
pub open spec fn files_in(dirs: Seq<Seq<char>>, name: Seq<char>) -> Seq<Seq<char>> {
    Seq::new(dirs.len(), |i: int| joined(dirs[dirs.len() - 1 - i], name))
}

/// The layers of a config file in the config directories, from lowest to
/// highest priority; `dirs` is given from highest to lowest.
pub fn layer_paths(dirs: &Vec<PathBuf>, name: &str) -> (r: Vec<PathBuf>)
    ensures
        path_texts(r@) == files_in(path_texts(dirs@), name@),
{
    let ghost all = files_in(path_texts(dirs@), name@);
    let mut out: Vec<PathBuf> = Vec::new();
    let mut i: usize = dirs.len();
    while i > 0
        invariant
            i <= dirs@.len(),
            out@.len() == dirs@.len() - i,
            all == files_in(path_texts(dirs@), name@),
            forall|k: int| 0 <= k < out@.len() ==> (#[trigger] out@[k])@ == all[k],
        decreases i,
    {
        i -= 1;
        out.push(dirs[i].join(name));
    }
    assert(path_texts(out@) =~= all);
    out
}

/// How a layer is reported: not found, loaded, or with what went wrong in
/// reading it or, by `failure`, in making sense of it.
pub fn layer_outcome(file: &ConfigFile, failure: &Option<ConfigLoadError>) -> (r: ReadOutcome)
    ensures
        match (file.text, *failure) {
            (FileText::Missing, _) => r == ReadOutcome::NotFound,
            (FileText::Failed(reason), _) => r matches ReadOutcome::Error(m) && m@ == reason@,
            (FileText::Read(_), None) => r == ReadOutcome::Loaded,
            (FileText::Read(_), Some(e)) => r matches ReadOutcome::Error(m) && m@ == error_text(e),
        },
{
    match &file.text {
        FileText::Missing => ReadOutcome::NotFound,
        FileText::Failed(reason) => ReadOutcome::Error(reason.clone()),
        FileText::Read(_) => match failure {
            None => ReadOutcome::Loaded,
            Some(e) => ReadOutcome::Error(e.message()),
        },
    }
}

} // verus!

//! What is known of the file system.
use crate::path::PathBuf;
use crate::text::same;
use vstd::prelude::*;

verus! {

/// What a path leads to.
#[derive(Debug, Clone, Copy, PartialEq, Eq, Structural)]
pub enum FileKind {
    File,
    Dir,
    Other,
}

/// The paths that lead to something, each with what it leads to. A path that
/// is not among them leads nowhere.
#[derive(Debug)]
pub struct Disk {
    pub known: Vec<(PathBuf, FileKind)>,
}

/// What the path `t` leads to.
pub open spec fn kind_of(s: Seq<(PathBuf, FileKind)>, t: Seq<char>) -> Option<FileKind>
    decreases s.len(),
{
    if s.len() == 0 {
        None
    } else if s[0].0@ == t {
        Some(s[0].1)
    } else {
        kind_of(s.skip(1), t)
    }
}

impl Disk {
    /// What the path `t` leads to.
    pub open spec fn kind_at(&self, t: Seq<char>) -> Option<FileKind> {
        kind_of(self.known@, t)
    }

    /// Whether the path `t` leads to a directory.
    pub open spec fn dir_at(&self, t: Seq<char>) -> bool {
        self.kind_at(t) == Some(FileKind::Dir)
    }

    /// Whether the path `t` leads to a file.
    pub open spec fn file_at(&self, t: Seq<char>) -> bool {
        self.kind_at(t) == Some(FileKind::File)
    }

    /// Whether the path `t` leads anywhere.
    pub open spec fn present(&self, t: Seq<char>) -> bool {
        self.kind_at(t) is Some
    }

    /// What a path leads to.
    pub fn kind(&self, path: &PathBuf) -> (r: Option<FileKind>)
        ensures
            r == self.kind_at(path@),
    {
        let mut i: usize = 0;
        assert(self.known@.skip(0) =~= self.known@);
        while i < self.known.len()
            invariant
                i <= self.known@.len(),
                self.kind_at(path@) == kind_of(self.known@.skip(i as int), path@),
            decreases self.known@.len() - i,
        {
            assert(self.known@.skip(i as int)[0] == self.known@[i as int]);
            assert(self.known@.skip(i as int).skip(1) =~= self.known@.skip(i + 1));
            if same(self.known[i].0.text.as_str(), path.text.as_str()) {
                return Some(self.known[i].1);
            }
            i += 1;
        }
        None
    }

    /// Whether a path leads to a directory.
    pub fn is_dir(&self, path: &PathBuf) -> (r: bool)
        ensures
            r == self.dir_at(path@),
    {
        match self.kind(path) {
            Some(FileKind::Dir) => true,
            _ => false,
        }
    }

    /// Whether a path leads to a file.
    pub fn is_file(&self, path: &PathBuf) -> (r: bool)
        ensures
            r == self.file_at(path@),
    {
        match self.kind(path) {
            Some(FileKind::File) => true,
            _ => false,
        }
    }

    /// Whether a path leads anywhere.
    pub fn is_present(&self, path: &PathBuf) -> (r: bool)
        ensures
            r == self.present(path@),
    {
        self.kind(path).is_some()
    }
}

} // verus!

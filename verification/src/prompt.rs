//! Creating and deleting files from the tree: what the user is asked, and
//! what follows.
use crate::disk::Disk;
use crate::entry::Listings;
use crate::file_tree::{FileTree, TreeView};
use crate::key::{Event, FileTreeOpenBehavior, KeyCode};
use crate::marks::{outermost, targets};
use crate::navigate::{create_dir_of, refreshed, revealed, FileChange};
use crate::path::{joined, parent, path_text, path_texts, relative, PathBuf};
use crate::text::{concat, decimal, texts, to_decimal, trim, trimmed};
use vstd::prelude::*;

verus! {

// ── Creating ─────────────────────────────────────────────────────────────
/// How a path is shown: relative to the root, where it lies in it.
pub open spec fn shown_path(t: Seq<char>, root: Seq<char>) -> Seq<char> {
    match relative(t, root) {
        Some(r) => r,
        None => t,
    }
}

/// What the user is asked for a new file or directory.
pub open spec fn create_title(v: TreeView, is_dir: bool) -> Seq<char> {
    let shown = shown_path(create_dir_of(v), v.root);
    let lead = if is_dir {
        "New directory in "@
    } else {
        "New file in "@
    };
    lead + (if shown.len() == 0 {
        "."@
    } else {
        shown
    }) + ": "@
}

/// Shows a path relative to the root, where it lies in it.
fn show_path(path: &PathBuf, root: &PathBuf) -> (r: String)
    ensures
        r@ == shown_path(path@, root@),
{
    match path.strip_prefix(root) {
        Some(rest) => rest.text,
        None => path.text.clone(),
    }
}

/// A prompt that asks for the name of a new file or directory.
#[derive(Debug)]
pub struct CreatePrompt {
    pub title: String,
    pub base_dir: PathBuf,
    pub is_dir: bool,
    pub open_behavior: FileTreeOpenBehavior,
}

/// What is to be done on disk to create a file or directory: directories that
/// may be there already come first, and a failure to make those is passed
/// over if a file is to follow.
#[derive(Debug)]
pub struct Creation {
    /// The new path.
    pub path: PathBuf,
    /// The directories to make, with their parents.
    pub directory: Option<PathBuf>,
    /// Whether a file is to be created at the new path.
    pub file: bool,
}

/// The path that an answer stands for, if the answer is given and not blank.
pub open spec fn create_target(base: Seq<char>, validated: bool, input: Seq<char>) -> Option<
    Seq<char>,
> {
    if validated && trimmed(input).len() > 0 {
        Some(joined(base, trimmed(input)))
    } else {
        None
    }
}

impl FileTree {
    /// Opens a prompt asking for the name of a new file or directory to
    /// create inside [`FileTree::create_base_dir`].
    pub fn create_prompt(
        &self,
        is_dir: bool,
        open_behavior: FileTreeOpenBehavior,
    ) -> (r: CreatePrompt)
        ensures
            r.title@ == create_title(self@, is_dir),
            r.base_dir@ == create_dir_of(self@),
            r.is_dir == is_dir,
            r.open_behavior == open_behavior,
    {
        let base_dir = self.create_base_dir();
        let mut shown = show_path(&base_dir, &self.root);
        if shown.as_str().unicode_len() == 0 {
            shown = ".".to_owned();
        }
        let lead = if is_dir {
            "New directory in "
        } else {
            "New file in "
        };
        let title = concat(concat(lead, shown.as_str()).as_str(), ": ");
        CreatePrompt { title, base_dir, is_dir, open_behavior }
    }
}

impl CreatePrompt {
    /// What an answer asks for: `validated` says whether the answer was
    /// confirmed, rather than typed so far or given up.
    pub fn answer(&self, validated: bool, input: &str) -> (r: Option<Creation>)
        ensures
            match create_target(self.base_dir@, validated, input@) {
                Some(t) => r matches Some(c) && c.path@ == t && c.file == !self.is_dir && path_text(
                    c.directory,
                ) == (if self.is_dir {
                    Some(t)
                } else {
                    parent(t)
                }),
                None => r is None,
            },
    {
        if !validated {
            return None;
        }
        let name = trim(input);
        if name.as_str().unicode_len() == 0 {
            return None;
        }
        let path = self.base_dir.join(name.as_str());
        let directory = if self.is_dir {
            Some(path.clone())
        } else {
            path.parent()
        };
        Some(Creation { path, directory, file: !self.is_dir })
    }

    /// What follows once the new path is there, besides showing it in the
    /// tree: whether the tree is closed, and whether the path is opened in
    /// the editor. Only files are opened.
    pub fn follow_up(&self) -> (r: (bool, bool))
        ensures
            r.0 == (!self.is_dir && self.open_behavior == FileTreeOpenBehavior::Auto),
            r.1 == !self.is_dir,
    {
        if self.is_dir {
            return (false, false);
        }
        (self.open_behavior == FileTreeOpenBehavior::Auto, true)
    }
}

/// Says that a path was created.
pub fn created_message(path: &PathBuf) -> (r: String)
    ensures
        r@ == "Created: "@ + path@,
{
    concat("Created: ", path.text.as_str())
}

/// Says that a path could not be created, and why.
pub fn create_error(path: &PathBuf, err: &str) -> (r: String)
    ensures
        r@ == "Failed to create "@ + path@ + ": "@ + err@,
{
    concat(
        concat(concat("Failed to create ", path.text.as_str()).as_str(), ": ").as_str(),
        err,
    )
}

/// Says that a path could not be opened, and why.
pub fn open_error(path: &PathBuf, err: &str) -> (r: String)
    ensures
        r@ == "Failed to open "@ + path@ + ": "@ + err@,
{
    concat(concat(concat("Failed to open ", path.text.as_str()).as_str(), ": ").as_str(), err)
}

impl FileTree {
    /// Shows a path that was just created: the tree is read anew, and the
    /// selection goes to the path.
    pub fn show_created(
        &mut self,
        path: &PathBuf,
        disk: &Listings,
        changes: &Vec<Option<FileChange>>,
    )
        requires
            old(self).marked.wf(),
            old(self).entries@.len() + 1 < usize::MAX,
        ensures
            final(self)@ == revealed(refreshed(old(self)@, *disk, changes@), path@, *disk),
            final(self).marked.wf(),
    {
        self.refresh(disk, changes);
        self.reveal_path(path, disk);
    }
}

// ── Deleting ─────────────────────────────────────────────────────────────
/// What the user is asked before `n` paths are deleted.
pub open spec fn delete_title(n: nat) -> Seq<char> {
    if n == 1 {
        "Delete this item?"@
    } else {
        "Delete these "@ + decimal(n) + " items?"@
    }
}

/// How a path that is about to be deleted is shown.
pub open spec fn delete_line(t: Seq<char>, root: Seq<char>, disk: Disk) -> Seq<char> {
    if disk.dir_at(t) {
        shown_path(t, root) + "/"@
    } else {
        shown_path(t, root)
    }
}

/// How the paths that are about to be deleted are shown.
pub open spec fn delete_lines(s: Seq<Seq<char>>, root: Seq<char>, disk: Disk) -> Seq<Seq<char>> {
    Seq::new(s.len(), |i: int| delete_line(s[i], root, disk))
}

/// A modal confirmation box: shows a title, a list of items (e.g. the
/// files about to be deleted) and asks for confirmation with `y`/`Enter`
/// or cancellation with `n`/`q`/`Esc`. What it stands for is only done
/// after explicit confirmation, and once.
#[derive(Debug)]
pub struct ConfirmBox {
    pub title: String,
    pub lines: Vec<String>,
    /// The paths that are deleted on confirmation, until it was given.
    pub on_confirm: Option<Vec<PathBuf>>,
}

/// What a confirmation box leaves to do after an event.
#[derive(Debug)]
pub enum ConfirmReply {
    /// The box closes; the paths, if there are any left, are deleted.
    Confirmed(Option<Vec<PathBuf>>),
    /// The box closes.
    Cancelled,
    /// The box stays.
    Swallowed,
}

/// Whether an event confirms.
pub open spec fn confirms(event: Event) -> bool {
    event matches Event::Key(key) && (key.code == KeyCode::Char('y') || key.code == KeyCode::Enter)
}

/// Whether an event cancels.
pub open spec fn cancels(event: Event) -> bool {
    event matches Event::Key(key) && (key.code == KeyCode::Char('n') || key.code == KeyCode::Char(
        'q',
    ) || key.code == KeyCode::Esc)
}

impl ConfirmBox {
    /// A box that asks for confirmation.
    pub fn new(title: String, lines: Vec<String>, on_confirm: Vec<PathBuf>) -> (r: ConfirmBox)
        ensures
            r.title == title,
            r.lines == lines,
            r.on_confirm == Some(on_confirm),
    {
        ConfirmBox { title, lines, on_confirm: Some(on_confirm) }
    }

    /// Handles an event. The box is modal: no event goes past it.
    pub fn handle_event(&mut self, event: &Event) -> (r: ConfirmReply)
        ensures
            r == (if confirms(*event) {
                ConfirmReply::Confirmed(old(self).on_confirm)
            } else if cancels(*event) {
                ConfirmReply::Cancelled
            } else {
                ConfirmReply::Swallowed
            }),
            *final(self) == (ConfirmBox {
                on_confirm: if confirms(*event) {
                    None
                } else {
                    old(self).on_confirm
                },
                ..*old(self)
            }),
    {
        match event {
            Event::Key(key) => match key.code {
                KeyCode::Char('y') | KeyCode::Enter => {
                    ConfirmReply::Confirmed(self.on_confirm.take())
                },
                KeyCode::Char('n') | KeyCode::Char('q') | KeyCode::Esc => ConfirmReply::Cancelled,
                _ => ConfirmReply::Swallowed,
            },
            Event::Other => ConfirmReply::Swallowed,
        }
    }

    /// The name that the box is found by.
    pub fn id(&self) -> (r: Option<&'static str>)
        ensures
            r matches Some(s) && s@ == "file-tree-confirm"@,
    {
        Some("file-tree-confirm")
    }
}

impl FileTree {
    /// Asks whether to delete the marked entries, or the current entry: a
    /// confirmation box that lists them. There is none where nothing would be
    /// deleted.
    pub fn confirm_delete(&self, disk: &Disk) -> (r: Option<ConfirmBox>)
        requires
            self.marked.wf(),
        ensures
            ({
                let paths = outermost(targets(self@));
                match r {
                    None => paths.len() == 0,
                    Some(b) => {
                        &&& paths.len() > 0
                        &&& b.title@ == delete_title(paths.len())
                        &&& texts(b.lines@) == delete_lines(paths, self@.root, *disk)
                        &&& b.on_confirm matches Some(p) && path_texts(p@) == paths
                    },
                }
            }),
    {
        let paths = self.selected_paths();
        let ghost all = outermost(targets(self@));
        assert(all.len() == paths@.len());
        if paths.len() == 0 {
            return None;
        }
        let title = if paths.len() == 1 {
            "Delete this item?".to_owned()
        } else {
            concat(concat("Delete these ", to_decimal(paths.len()).as_str()).as_str(), " items?")
        };
        let mut lines: Vec<String> = Vec::new();
        let mut i: usize = 0;
        while i < paths.len()
            invariant
                i <= paths@.len(),
                all == path_texts(paths@),
                lines@.len() == i,
                forall|k: int|
                    0 <= k < i ==> (#[trigger] lines@[k])@ == delete_line(
                        all[k],
                        self@.root,
                        *disk,
                    ),
            decreases paths@.len() - i,
        {
            let mut line = show_path(&paths[i], &self.root);
            if disk.is_dir(&paths[i]) {
                line = concat(line.as_str(), "/");
            }
            lines.push(line);
            i += 1;
        }
        assert(texts(lines@) =~= delete_lines(all, self@.root, *disk));
        Some(ConfirmBox::new(title, lines, paths))
    }

    /// Shows the tree after paths were deleted: no mark is left, and the tree
    /// is read anew.
    pub fn show_deleted(&mut self, disk: &Listings, changes: &Vec<Option<FileChange>>)
        requires
            old(self).marked.wf(),
            old(self).entries@.len() + 1 < usize::MAX,
        ensures
            final(self)@ == refreshed(
                TreeView { marked: Seq::empty(), anchor: None, ..old(self)@ },
                *disk,
                changes@,
            ),
            final(self).marked.wf(),
    {
        self.clear_marks();
        self.refresh(disk, changes);
    }
}

/// What went wrong with a path that was to be deleted.
#[derive(Debug)]
pub struct DeleteError {
    pub path: PathBuf,
    pub message: String,
}

/// What is said of one path that could not be deleted.
pub open spec fn delete_error(e: DeleteError) -> Seq<char> {
    e.path@ + ": "@ + e.message@
}

/// What is said of all paths that could not be deleted.
pub open spec fn delete_errors(s: Seq<DeleteError>) -> Seq<char>
    decreases s.len(),
{
    if s.len() == 0 {
        Seq::empty()
    } else if s.len() == 1 {
        delete_error(s[0])
    } else {
        delete_errors(s.drop_last()) + ", "@ + delete_error(s.last())
    }
}

/// Says how deleting went: `Ok` with the number of paths that were deleted if
/// all were, else `Err` with what went wrong.
pub fn delete_message(deleted: usize, errors: &Vec<DeleteError>) -> (r: Result<String, String>)
    ensures
        match r {
            Ok(m) => errors@.len() == 0 && m@ == "Deleted "@ + decimal(deleted as nat) + " item"@
                + (if deleted == 1 {
                ""@
            } else {
                "s"@
            }),
            Err(m) => errors@.len() > 0 && m@ == "Failed to delete: "@ + delete_errors(errors@),
        },
{
    if errors.len() == 0 {
        let count = concat("Deleted ", to_decimal(deleted).as_str());
        let ending = if deleted == 1 {
            ""
        } else {
            "s"
        };
        return Ok(concat(concat(count.as_str(), " item").as_str(), ending));
    }
    let ghost s = errors@;
    let mut all = concat(
        concat(errors[0].path.text.as_str(), ": ").as_str(),
        errors[0].message.as_str(),
    );
    let mut i: usize = 1;
    assert(s.take(1)[0] == s[0]);
    while i < errors.len()
        invariant
            1 <= i <= errors@.len(),
            s == errors@,
            all@ == delete_errors(s.take(i as int)),
        decreases errors@.len() - i,
    {
        let one = concat(
            concat(errors[i].path.text.as_str(), ": ").as_str(),
            errors[i].message.as_str(),
        );
        all = concat(concat(all.as_str(), ", ").as_str(), one.as_str());
        assert(s.take(i + 1).drop_last() =~= s.take(i as int));
        assert(s.take(i + 1).last() == s[i as int]);
        i += 1;
    }
    assert(s.take(i as int) =~= s);
    Err(concat("Failed to delete: ", all.as_str()))
}

} // verus!

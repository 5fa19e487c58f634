//! The entries of the file tree, and how a directory's contents become
//! entries.
use crate::order::{
    lemma_lex_asymmetric, lemma_lex_irreflexive, lemma_lex_total, lemma_lex_transitive,
};
use crate::path::{file_name, parts, Part, PathBuf};
use crate::sort::{lemma_stable_sort, place, stable_sort, strict_weak};
use crate::text::{
    char_order, chars_less, chars_of, lemma_char_order, lowercase, text_less, to_lowercase,
};
use vstd::prelude::*;

verus! {

/// Git status for a file
#[derive(Debug, Clone, Copy, PartialEq, Eq, Structural)]
pub enum GitStatus {
    Untracked,
    Modified,
    Added,
    Deleted,
    Renamed,
    Conflict,
}

/// The letter that stands for a status.
pub open spec fn label_of(status: GitStatus) -> Seq<char> {
    match status {
        GitStatus::Untracked => "?"@,
        GitStatus::Modified => "M"@,
        GitStatus::Added => "A"@,
        GitStatus::Deleted => "D"@,
        GitStatus::Renamed => "R"@,
        GitStatus::Conflict => "C"@,
    }
}

impl GitStatus {
    /// The letter that stands for the status.
    pub fn label(&self) -> (r: &'static str)
        ensures
            r@ == label_of(*self),
    {
        match self {
            GitStatus::Untracked => "?",
            GitStatus::Modified => "M",
            GitStatus::Added => "A",
            GitStatus::Deleted => "D",
            GitStatus::Renamed => "R",
            GitStatus::Conflict => "C",
        }
    }
}

/// The git status of files, by path.
#[derive(Debug)]
pub struct GitStatusMap {
    pub entries: Vec<(PathBuf, GitStatus)>,
}

/// What a list of paths with their status means; of two entries for the same
/// path the later one counts.
pub open spec fn statuses(s: Seq<(PathBuf, GitStatus)>) -> Map<Seq<Part>, GitStatus>
    decreases s.len(),
{
    if s.len() == 0 {
        Map::empty()
    } else {
        statuses(s.drop_last()).insert(parts(s.last().0@), s.last().1)
    }
}

/// The status that a map gives for a path.
pub open spec fn status_of(m: Map<Seq<Part>, GitStatus>, t: Seq<char>) -> Option<GitStatus> {
    if m.contains_key(parts(t)) {
        Some(m[parts(t)])
    } else {
        None
    }
}

impl View for GitStatusMap {
    type V = Map<Seq<Part>, GitStatus>;

    open spec fn view(&self) -> Map<Seq<Part>, GitStatus> {
        statuses(self.entries@)
    }
}

impl GitStatusMap {
    /// No file has a status.
    pub fn new() -> (r: GitStatusMap)
        ensures
            r@ == Map::<Seq<Part>, GitStatus>::empty(),
    {
        GitStatusMap { entries: Vec::new() }
    }

    /// Sets the status of a file.
    pub fn insert(&mut self, path: PathBuf, status: GitStatus)
        ensures
            final(self)@ == old(self)@.insert(parts(path@), status),
    {
        let ghost before = self.entries@;
        self.entries.push((path, status));
        assert(self.entries@.drop_last() =~= before);
    }

    /// The status of a file.
    pub fn get(&self, path: &PathBuf) -> (r: Option<GitStatus>)
        ensures
            r == status_of(self@, path@),
    {
        let mut i: usize = self.entries.len();
        assert(self.entries@.take(i as int) =~= self.entries@);
        while i > 0
            invariant
                i <= self.entries@.len(),
                status_of(self@, path@) == status_of(
                    statuses(self.entries@.take(i as int)),
                    path@,
                ),
            decreases i,
        {
            assert(self.entries@.take(i as int).drop_last() =~= self.entries@.take(i - 1));
            assert(self.entries@.take(i as int).last() == self.entries@[i - 1]);
            if self.entries[i - 1].0.same_as(path) {
                return Some(self.entries[i - 1].1);
            }
            i -= 1;
        }
        None
    }
}

/// A single entry in the file tree, as a mathematical value.
pub struct EntryView {
    pub path: Seq<char>,
    pub is_dir: bool,
    pub depth: nat,
    pub expanded: bool,
    pub git_status: Option<GitStatus>,
    pub name: Seq<char>,
}

/// A single entry in the file tree
#[derive(Debug)]
pub struct FileEntry {
    /// Full path to the file/directory
    pub path: PathBuf,
    /// Whether this is a directory
    pub is_dir: bool,
    /// Depth in the tree (0 = root level)
    pub depth: usize,
    /// Whether this directory is expanded (showing children)
    pub expanded: bool,
    /// Git status (if available)
    pub git_status: Option<GitStatus>,
    /// Display name (file/directory name only)
    pub name: String,
}

impl View for FileEntry {
    type V = EntryView;

    open spec fn view(&self) -> EntryView {
        EntryView {
            path: self.path@,
            is_dir: self.is_dir,
            depth: self.depth as nat,
            expanded: self.expanded,
            git_status: self.git_status,
            name: self.name@,
        }
    }
}

impl Clone for FileEntry {
    fn clone(&self) -> (r: Self)
        ensures
            r == *self,
    {
        FileEntry {
            path: self.path.clone(),
            is_dir: self.is_dir,
            depth: self.depth,
            expanded: self.expanded,
            git_status: self.git_status,
            name: self.name.clone(),
        }
    }
}

/// The entries that a list of values stands for.
pub open spec fn entry_views(s: Seq<FileEntry>) -> Seq<EntryView> {
    Seq::new(s.len(), |i: int| s[i]@)
}

/// The name that an entry for a path is shown with.
pub open spec fn display_name(t: Seq<char>) -> Seq<char> {
    match file_name(t) {
        Some(n) => n,
        None => Seq::empty(),
    }
}

/// A new entry: not expanded, with the given status.
pub open spec fn fresh_entry(
    t: Seq<char>,
    is_dir: bool,
    depth: nat,
    git_status: Option<GitStatus>,
) -> EntryView {
    EntryView { path: t, is_dir, depth, expanded: false, git_status, name: display_name(t) }
}

impl FileEntry {
    /// A new entry: not expanded, without a status, named after the last
    /// component of its path.
    pub fn new(path: PathBuf, is_dir: bool, depth: usize) -> (r: FileEntry)
        ensures
            r@ == fresh_entry(path@, is_dir, depth as nat, None),
    {
        let name = match path.file_name() {
            Some(n) => n,
            None => String::new(),
        };
        FileEntry { path, is_dir, depth, expanded: false, git_status: None, name }
    }
}

// ── Directory contents ───────────────────────────────────────────────────
/// One item of a directory, as a mathematical value.
pub struct ItemView {
    pub path: Seq<char>,
    pub is_dir: bool,
}

/// One item of a directory.
#[derive(Debug)]
pub struct DirItem {
    pub path: PathBuf,
    pub is_dir: bool,
}

impl View for DirItem {
    type V = ItemView;

    open spec fn view(&self) -> ItemView {
        ItemView { path: self.path@, is_dir: self.is_dir }
    }
}

/// The items that a list of values stands for.
pub open spec fn item_views(s: Seq<DirItem>) -> Seq<ItemView> {
    Seq::new(s.len(), |i: int| s[i]@)
}

/// What directories hold: those that could be read, with their items in the
/// order in which they were read.
#[derive(Debug)]
pub struct Listings {
    pub dirs: Vec<(PathBuf, Vec<DirItem>)>,
}

/// The items of the directory `t`, if it could be read.
pub open spec fn items_of(s: Seq<(PathBuf, Vec<DirItem>)>, t: Seq<char>) -> Option<Seq<ItemView>>
    decreases s.len(),
{
    if s.len() == 0 {
        None
    } else if parts(s[0].0@) == parts(t) {
        Some(item_views(s[0].1@))
    } else {
        items_of(s.skip(1), t)
    }
}

impl Listings {
    /// The items of the directory `t`, if it could be read.
    pub open spec fn items(&self, t: Seq<char>) -> Option<Seq<ItemView>> {
        items_of(self.dirs@, t)
    }

    /// The items of a directory, if it could be read.
    pub fn get(&self, dir: &PathBuf) -> (r: Option<&Vec<DirItem>>)
        ensures
            match r {
                Some(items) => self.items(dir@) == Some(item_views(items@)),
                None => self.items(dir@) is None,
            },
    {
        let mut i: usize = 0;
        assert(self.dirs@.skip(0) =~= self.dirs@);
        while i < self.dirs.len()
            invariant
                i <= self.dirs@.len(),
                self.items(dir@) == items_of(self.dirs@.skip(i as int), dir@),
            decreases self.dirs@.len() - i,
        {
            assert(self.dirs@.skip(i as int)[0] == self.dirs@[i as int]);
            if self.dirs[i].0.same_as(dir) {
                return Some(&self.dirs[i].1);
            }
            assert(self.dirs@.skip(i as int).skip(1) =~= self.dirs@.skip(i + 1));
            i += 1;
        }
        None
    }
}

/// `a` is shown before `b` when neither is a directory or both are: names are
/// compared without regard to case.
pub open spec fn name_less(a: EntryView, b: EntryView) -> bool {
    text_less(lowercase(a.name), lowercase(b.name))
}

/// The order in which entries of the same kind are shown.
pub open spec fn name_order() -> spec_fn(EntryView, EntryView) -> bool {
    |a: EntryView, b: EntryView| name_less(a, b)
}

/// `s` sorted by name; entries whose names do not differ keep their order.
pub open spec fn sort_by_name(s: Seq<EntryView>) -> Seq<EntryView> {
    stable_sort(name_order(), s)
}

/// Comparing entries by name is comparing them by a key.
pub proof fn lemma_name_order()
    ensures
        strict_weak(name_order()),
{
    lemma_char_order();
    let lt = name_order();
    let co = char_order();
    assert forall|x: EntryView| !#[trigger] lt(x, x) by {
        lemma_lex_irreflexive(co, lowercase(x.name));
    }
    assert forall|x: EntryView, y: EntryView, z: EntryView| #[trigger] lt(x, y) && #[trigger] lt(
        y,
        z,
    ) implies lt(x, z) by {
        lemma_lex_transitive(co, lowercase(x.name), lowercase(y.name), lowercase(z.name));
    }
    assert forall|x: EntryView, y: EntryView, z: EntryView|
        !#[trigger] lt(x, y) && !#[trigger] lt(y, z) implies !lt(x, z) by {
        let (a, b, c) = (lowercase(x.name), lowercase(y.name), lowercase(z.name));
        if a != b {
            lemma_lex_total(co, a, b);
        }
        if b != c {
            lemma_lex_total(co, b, c);
        }
        if lt(x, z) {
            lemma_lex_asymmetric(co, a, c);
            if a != b && b != c {
                lemma_lex_transitive(co, c, b, a);
            }
        }
    }
}

/// The entries for those items of a directory that are directories, or for
/// those that are not.
pub open spec fn entries_for(
    items: Seq<ItemView>,
    is_dir: bool,
    depth: nat,
    git: Map<Seq<Part>, GitStatus>,
) -> Seq<EntryView>
    decreases items.len(),
{
    if items.len() == 0 {
        Seq::empty()
    } else {
        let p = entries_for(items.drop_last(), is_dir, depth, git);
        let last = items.last();
        if last.is_dir == is_dir {
            p.push(fresh_entry(last.path, is_dir, depth, status_of(git, last.path)))
        } else {
            p
        }
    }
}

/// The entries for the items of a directory: directories first, then files,
/// both sorted by name.
pub open spec fn children(
    items: Seq<ItemView>,
    depth: nat,
    git: Map<Seq<Part>, GitStatus>,
) -> Seq<EntryView> {
    sort_by_name(entries_for(items, true, depth, git)) + sort_by_name(
        entries_for(items, false, depth, git),
    )
}

/// The entries for the items of one kind are those items, each fresh and at
/// the given depth.
proof fn lemma_entries_for(
    items: Seq<ItemView>,
    is_dir: bool,
    depth: nat,
    git: Map<Seq<Part>, GitStatus>,
)
    ensures
        forall|e: EntryView| #[trigger]
            entries_for(items, is_dir, depth, git).contains(e) <==> exists|k: int|
                0 <= k < items.len() && (#[trigger] items[k]).is_dir == is_dir && e == fresh_entry(
                    items[k].path,
                    is_dir,
                    depth,
                    status_of(git, items[k].path),
                ),
    decreases items.len(),
{
    if items.len() > 0 {
        let p = items.drop_last();
        let last = items.last();
        lemma_entries_for(p, is_dir, depth, git);
        let before = entries_for(p, is_dir, depth, git);
        let after = entries_for(items, is_dir, depth, git);
        let fresh = fresh_entry(last.path, is_dir, depth, status_of(git, last.path));
        assert forall|e: EntryView| #[trigger] after.contains(e) <==> exists|k: int|
            0 <= k < items.len() && (#[trigger] items[k]).is_dir == is_dir && e == fresh_entry(
                items[k].path,
                is_dir,
                depth,
                status_of(git, items[k].path),
            ) by {
            if after.contains(e) {
                let i = choose|i: int| 0 <= i < after.len() && after[i] == e;
                if i < before.len() {
                    assert(before[i] == e);
                    assert(before.contains(e));
                    let k = choose|k: int|
                        0 <= k < p.len() && (#[trigger] p[k]).is_dir == is_dir && e == fresh_entry(
                            p[k].path,
                            is_dir,
                            depth,
                            status_of(git, p[k].path),
                        );
                    assert(items[k] == p[k]);
                } else {
                    assert(items[items.len() - 1] == last);
                }
            }
            if exists|k: int|
                0 <= k < items.len() && (#[trigger] items[k]).is_dir == is_dir && e == fresh_entry(
                    items[k].path,
                    is_dir,
                    depth,
                    status_of(git, items[k].path),
                ) {
                let k = choose|k: int|
                    0 <= k < items.len() && (#[trigger] items[k]).is_dir == is_dir && e
                        == fresh_entry(
                        items[k].path,
                        is_dir,
                        depth,
                        status_of(git, items[k].path),
                    );
                if k < p.len() {
                    assert(p[k] == items[k]);
                    assert(before.contains(e));
                    let i = choose|i: int| 0 <= i < before.len() && before[i] == e;
                    assert(after[i] == e);
                } else {
                    assert(after[before.len() as int] == e);
                }
            }
        }
    }
}

/// The entries for a directory are its items, each one fresh and at the given
/// depth.
pub proof fn lemma_children(items: Seq<ItemView>, depth: nat, git: Map<Seq<Part>, GitStatus>)
    ensures
        forall|e: EntryView| #[trigger]
            children(items, depth, git).contains(e) <==> exists|k: int|
                0 <= k < items.len() && e == fresh_entry(
                    (#[trigger] items[k]).path,
                    items[k].is_dir,
                    depth,
                    status_of(git, items[k].path),
                ),
{
    broadcast use vstd::seq_lib::group_to_multiset_ensures;

    let d = entries_for(items, true, depth, git);
    let f = entries_for(items, false, depth, git);
    lemma_entries_for(items, true, depth, git);
    lemma_entries_for(items, false, depth, git);
    lemma_name_order();
    lemma_stable_sort(name_order(), d);
    lemma_stable_sort(name_order(), f);
    let (sd, sf) = (sort_by_name(d), sort_by_name(f));
    assert forall|e: EntryView| #[trigger] children(items, depth, git).contains(e) <==> d.contains(e)
        || f.contains(e) by {
        assert(sd.contains(e) <==> d.contains(e)) by {
            assert(sd.to_multiset().count(e) == d.to_multiset().count(e));
        }
        assert(sf.contains(e) <==> f.contains(e)) by {
            assert(sf.to_multiset().count(e) == f.to_multiset().count(e));
        }
        let all = sd + sf;
        if sd.contains(e) {
            let i = choose|i: int| 0 <= i < sd.len() && sd[i] == e;
            assert(all[i] == e);
        }
        if sf.contains(e) {
            let i = choose|i: int| 0 <= i < sf.len() && sf[i] == e;
            assert(all[sd.len() + i] == e);
        }
        if all.contains(e) {
            let i = choose|i: int| 0 <= i < all.len() && all[i] == e;
            if i < sd.len() {
                assert(sd[i] == e);
            } else {
                assert(sf[i - sd.len()] == e);
            }
        }
    }
}

/// Puts an entry into a list that is sorted by name.
fn insert_by_name(sorted: &mut Vec<FileEntry>, e: FileEntry)
    ensures
        entry_views(final(sorted)@) == entry_views(old(sorted)@).insert(
            place(name_order(), entry_views(old(sorted)@), e@) as int,
            e@,
        ),
{
    let ghost s = entry_views(sorted@);
    let key = chars_of(&to_lowercase(&e.name));
    let mut k: usize = 0;
    assert(s.skip(0) =~= s);
    while k < sorted.len() && !chars_less(&key, &chars_of(&to_lowercase(&sorted[k].name)))
        invariant
            k <= sorted@.len(),
            s == entry_views(sorted@),
            key@ == lowercase(e@.name),
            place(name_order(), s, e@) == k + place(name_order(), s.skip(k as int), e@),
        ensures
            k <= sorted@.len(),
            s == entry_views(sorted@),
            place(name_order(), s, e@) == k + place(name_order(), s.skip(k as int), e@),
            k < s.len() ==> name_less(e@, s[k as int]),
        decreases sorted@.len() - k,
    {
        assert(s.skip(k as int)[0] == s[k as int]);
        assert(s.skip(k as int).skip(1) =~= s.skip(k + 1));
        k += 1;
    }
    let ghost v = e@;
    sorted.insert(k, e);
    assert(entry_views(sorted@) =~= s.insert(k as int, v));
}

/// Turns the items of a directory into entries.
pub fn load_entries(items: &Vec<DirItem>, depth: usize, git: &GitStatusMap) -> (r: Vec<FileEntry>)
    ensures
        entry_views(r@) == children(item_views(items@), depth as nat, git@),
{
    let ghost views = item_views(items@);
    let mut dirs: Vec<FileEntry> = Vec::new();
    let mut files: Vec<FileEntry> = Vec::new();
    let mut i: usize = 0;
    assert(entry_views(dirs@) =~= Seq::empty());
    assert(entry_views(files@) =~= Seq::empty());
    while i < items.len()
        invariant
            i <= items@.len(),
            views == item_views(items@),
            entry_views(dirs@) == sort_by_name(
                entries_for(views.take(i as int), true, depth as nat, git@),
            ),
            entry_views(files@) == sort_by_name(
                entries_for(views.take(i as int), false, depth as nat, git@),
            ),
        decreases items@.len() - i,
    {
        let is_dir = items[i].is_dir;
        let mut entry = FileEntry::new(items[i].path.clone(), is_dir, depth);
        entry.git_status = git.get(&items[i].path);
        proof {
            assert(views.take(i + 1).drop_last() =~= views.take(i as int));
            assert(views.take(i + 1).last() == views[i as int]);
            let p = entries_for(views.take(i as int), is_dir, depth as nat, git@);
            assert(p.push(entry@).drop_last() =~= p);
        }
        if is_dir {
            insert_by_name(&mut dirs, entry);
        } else {
            insert_by_name(&mut files, entry);
        }
        i += 1;
    }
    assert(views.take(i as int) =~= views);
    let ghost d = dirs@;
    let ghost f = files@;
    dirs.append(&mut files);
    assert(entry_views(dirs@) =~= entry_views(d) + entry_views(f));
    dirs
}

proof fn lemma_entries_for_len(
    items: Seq<ItemView>,
    depth: nat,
    git: Map<Seq<Part>, GitStatus>,
)
    ensures
        entries_for(items, true, depth, git).len() + entries_for(items, false, depth, git).len()
            == items.len(),
    decreases items.len(),
{
    if items.len() > 0 {
        lemma_entries_for_len(items.drop_last(), depth, git);
    }
}

/// A directory shows one entry for each of its items: directories before
/// files, and each of the two by name, without regard to case.
pub proof fn law_directory_order(items: Seq<ItemView>, depth: nat, git: Map<Seq<Part>, GitStatus>)
    ensures
        ({
            let s = children(items, depth, git);
            &&& s.len() == items.len()
            &&& forall|i: int, j: int|
                0 <= i < j < s.len() && (#[trigger] s[j]).is_dir ==> (#[trigger] s[i]).is_dir
            &&& forall|i: int, j: int|
                0 <= i < j < s.len() && (#[trigger] s[i]).is_dir == (#[trigger] s[j]).is_dir
                    ==> !name_less(s[j], s[i])
        }),
{
    broadcast use vstd::seq_lib::group_to_multiset_ensures;

    let d = entries_for(items, true, depth, git);
    let f = entries_for(items, false, depth, git);
    lemma_entries_for(items, true, depth, git);
    lemma_entries_for(items, false, depth, git);
    lemma_entries_for_len(items, depth, git);
    let lt = name_order();
    lemma_name_order();
    lemma_stable_sort(lt, d);
    lemma_stable_sort(lt, f);
    let (sd, sf) = (sort_by_name(d), sort_by_name(f));
    let s = children(items, depth, git);
    assert forall|i: int| 0 <= i < s.len() implies (#[trigger] s[i]).is_dir == (i < sd.len()) by {
        if i < sd.len() {
            assert(sd.contains(sd[i]));
            assert(d.to_multiset().contains(sd[i]));
            assert(d.contains(sd[i]));
        } else {
            let k = i - sd.len();
            assert(sf.contains(sf[k]));
            assert(f.to_multiset().contains(sf[k]));
            assert(f.contains(sf[k]));
        }
    }
    assert forall|i: int, j: int|
        0 <= i < j < s.len() && (#[trigger] s[i]).is_dir == (#[trigger] s[j]).is_dir implies !name_less(
        s[j],
        s[i],
    ) by {
        if j < sd.len() {
            assert(!lt(sd[j], sd[i]));
        } else {
            assert(!lt(sf[j - sd.len()], sf[i - sd.len()]));
        }
    }
}

} // verus!

//! Sessions from their first write to their return, call by call.
use crate::args::{Args, SessionArg};
use crate::disk::Disk;
use crate::entry::Listings;
use crate::file_tree::FileTree;
use crate::laws::files::law_restored;
use crate::laws::sessions::{
    gives_back, law_automatic_write, law_buffers_saved, law_first_calls, law_loaded,
    law_session_config, law_views_come_back,
};
use crate::layout::{
    buffers_of, leaves, nothing_empty, open_views, opt_split, sidebar_of, snapshot, Document, EditorView, SplitTree,
};
use crate::navigate::{opened, FileChange};
use crate::path::{joined, parent, path_text, PathBuf};
use crate::restore::{
    before_layout, first_view, law_nothing_to_restore, layout_rebuilt, reply_views, restore,
    restore_sidebar, session_restored, Call, Reply, ReplyView, Step,
};
use crate::session::{
    is_safe, sanitize_name, BufferView, Session, SessionConfig, SessionFile, SessionManager, SessionWrite,
    SidebarState,
};
use crate::text::opt_text;
use vstd::prelude::*;

verus! {

// ── Writing ──────────────────────────────────────────────────────────────
/// A manager belongs to its workspace, and its first automatic write is due a
/// second after it was made.
pub proof fn law_manager_made(
    config: &SessionConfig,
    workspace: PathBuf,
    files: &Vec<SessionFile>,
    then: u64,
    m: &SessionManager,
    now: u64,
    due: bool,
)
    requires
        call_ensures(SessionManager::new, (config, workspace, files, then), *m),
        call_ensures(SessionManager::due, (m, now), due),
    ensures
        m.workspace@ == workspace@,
        due <==> now >= then + 1000,
{
}

/// A save that is asked for writes whatever there is, at any time, to the file
/// of the session; and the next automatic write is due at once.
pub proof fn law_saved_when_asked(
    m: &mut SessionManager,
    now: u64,
    contents: &Option<String>,
    r: Option<SessionWrite>,
    due: bool,
)
    requires
        call_ensures(SessionManager::save, (m, now, contents), r),
        call_ensures(SessionManager::due, (&*final(m), now), due),
    ensures
        r is Some <==> *contents is Some,
        r matches Some(w) ==> w.file@ == old(m).file@ && path_text(w.directory) == parent(
            old(m).file@,
        ),
        final(m).file@ == old(m).file@,
        final(m).workspace@ == old(m).workspace@,
        final(m).last_signature == old(m).last_signature,
        now >= 1000 ==> due,
{
}

/// A text that was written is not written again by itself, at any time later.
pub proof fn law_not_written_twice(
    m: &SessionManager,
    now: u64,
    contents: &Option<String>,
    r: Option<SessionWrite>,
    n: &mut SessionManager,
    then: u64,
    later: u64,
    s: Option<SessionWrite>,
)
    requires
        call_ensures(SessionManager::save_if_changed, (m, now, contents), r),
        r is Some,
        *old(n) == *m,
        call_ensures(SessionManager::written, (n, &r->0, true, then), ()),
        call_ensures(SessionManager::save_if_changed, (&*final(n), later, contents), s),
    ensures
        s is None,
        final(n).last_write == then,
        final(n).file@ == m.file@,
{
}

/// A write that failed is tried again with the same text, a second later.
pub proof fn law_failed_write_tried_again(
    m: &SessionManager,
    now: u64,
    contents: &Option<String>,
    r: Option<SessionWrite>,
    n: &mut SessionManager,
    then: u64,
    later: u64,
    s: Option<SessionWrite>,
)
    requires
        call_ensures(SessionManager::save_if_changed, (m, now, contents), r),
        r is Some,
        *old(n) == *m,
        call_ensures(SessionManager::written, (n, &r->0, false, then), ()),
        call_ensures(SessionManager::save_if_changed, (&*final(n), later, contents), s),
    ensures
        s is Some <==> later >= then + 1000,
        s matches Some(w) ==> w.file@ == r->0.file@ && w.signature == r->0.signature,
{
    law_automatic_write(final(n)@, later, (*contents)->0@);
}

/// An automatic write comes when it is due, and not before.
pub proof fn law_written_when_due(
    m: &SessionManager,
    now: u64,
    contents: &Option<String>,
    r: Option<SessionWrite>,
    due: bool,
)
    requires
        call_ensures(SessionManager::save_if_changed, (m, now, contents), r),
        call_ensures(SessionManager::due, (m, now), due),
    ensures
        r is Some ==> due && *contents is Some,
        due <==> now >= m.last_write + 1000,
        r matches Some(w) ==> w.file@ == m.file@ && w.signature != m.last_signature,
{
}

// ── What is saved ────────────────────────────────────────────────────────
/// A session is saved as soon as one document has a path, with the workspace
/// and the browsing position of the sidebar.
pub proof fn law_session_taken(
    workspace: &PathBuf,
    documents: &Vec<Document>,
    splits: &Option<SplitTree>,
    views: &Vec<EditorView>,
    sidebar: &Option<FileTree>,
    r: Option<Session>,
)
    requires
        call_ensures(snapshot, (workspace, documents, splits, views, sidebar), r),
    ensures
        r is None <==> forall|i: int|
            0 <= i < documents@.len() ==> (#[trigger] documents@[i]).path is None,
        r matches Some(s) ==> {
            &&& s.version == 1
            &&& s.workspace@ == workspace@
            &&& s.sidebar is Some <==> *sidebar is Some
            &&& *sidebar matches Some(t) ==> s.sidebar->0.root@ == t.root@ && s.sidebar->0.scroll
                == t.scroll
            &&& *splits is None ==> s.layout is None
        },
{
    law_buffers_saved(
        workspace@,
        documents@,
        opt_split(*splits),
        open_views(views@),
        sidebar_of(*sidebar),
    );
    let with_path = |d: Document| d.path is Some;
    let kept = documents@.filter(with_path);
    lemma_filtered(documents@, with_path);
    assert(buffers_of(documents@).len() == kept.len());
}

/// A filter leaves nothing exactly if nothing passes it.
proof fn lemma_filtered<A>(s: Seq<A>, p: spec_fn(A) -> bool)
    ensures
        s.filter(p).len() == 0 <==> forall|i: int| 0 <= i < s.len() ==> !p(#[trigger] s[i]),
    decreases s.len(),
{
    reveal(Seq::filter);
    if s.len() > 0 {
        lemma_filtered(s.drop_last(), p);
        assert forall|i: int| 0 <= i < s.len() - 1 implies s.drop_last()[i] == s[i] by {}
        if p(s.last()) {
            assert(s[s.len() - 1] == s.last());
        } else if s.drop_last().filter(p).len() == 0 {
            assert forall|i: int| 0 <= i < s.len() implies !p(#[trigger] s[i]) by {
                if i < s.len() - 1 {
                    assert(!p(s.drop_last()[i]));
                }
            }
        } else {
            let i = choose|i: int| 0 <= i < s.drop_last().len() && p(#[trigger] s.drop_last()[i]);
            assert(p(s[i]));
        }
    }
}

// ── What comes back ──────────────────────────────────────────────────────
/// What is loaded is what was read, without the buffers whose file is gone;
/// where nothing was read there is nothing.
pub proof fn law_session_loaded(
    m: &SessionManager,
    read: Option<Session>,
    disk: &Disk,
    r: Option<Session>,
)
    requires
        call_ensures(SessionManager::load, (m, read, disk), r),
    ensures
        r is Some <==> read is Some,
        r matches Some(s) ==> {
            &&& s.version == read->0.version
            &&& s.workspace@ == read->0.workspace@
            &&& s@.sidebar == read->0@.sidebar
            &&& s@.buffers == read->0@.buffers.filter(|b: BufferView| disk.file_at(b.path))
            &&& read->0.layout is None ==> s.layout is None && s.focused_view
                == read->0.focused_view
        },
{
    if let Some(s) = read {
        law_loaded(s@, *disk);
    }
}

/// Restoring begins with a view of its own, and nothing is done for a session
/// with nothing in it.
pub proof fn law_restore_begun(session: &Session, replies: &Vec<Reply>, r: Result<bool, Call>)
    requires
        call_ensures(restore, (session, replies), r),
        replies@.len() == 0,
    ensures
        session.buffers@.len() == 0 && session.layout is None ==> r == Ok::<bool, Call>(false),
        session.buffers@.len() > 0 || session.layout is Some ==> r == Err::<bool, Call>(
            Call::NewFile,
        ),
{
    let rs = reply_views(replies@);
    assert(session@.buffers.len() == session.buffers@.len());
    assert(rs =~= Seq::empty());
    if session.buffers@.len() == 0 && session.layout is None {
        law_nothing_to_restore(session@, rs);
    } else {
        let one = seq![ReplyView { id: Some(0), views: Seq::empty() }];
        law_first_calls(session@, one, -1);
    }
}

/// Every view of the layout that is restored gets back its selections and its
/// scroll position: as restoring goes on there comes a point at which that is
/// what is asked for.
pub proof fn law_views_restored(
    session: &Session,
    all: &Vec<Reply>,
    done: Result<bool, Call>,
    f: int,
    view: u64,
)
    requires
        call_ensures(restore, (session, all), done),
        done is Ok,
        session@.layout matches Some(l) && nothing_empty(l) && 0 <= f < leaves(l).len(),
        layout_rebuilt(
            session@.layout,
            first_view(reply_views(all@)),
            reply_views(all@).skip(before_layout(session@)),
        ) matches Step::Go(placed, _) ==> placed[f].0 == Some(view),
    ensures
        exists|n: int| 0 <= n <= all@.len() && #[trigger] asks_to_give_back(session, all, n, f, view),
{
    let rs = reply_views(all@);
    let leaf = leaves(session@.layout->0)[f];
    law_views_come_back(session@, rs, f, view);
    let n = choose|n: int|
        0 <= n <= rs.len() && (session_restored(session@, #[trigger] rs.take(n)) matches Step::Need(
            call,
        ) && gives_back(call, view, leaf));
    assert(asks_to_give_back(session, all, n, f, view));
}

/// Whether restoring, with the first `n` of some replies, asks for the view
/// `view` to get back what was saved of the `f`th one.
pub open spec fn asks_to_give_back(
    session: &Session,
    all: &Vec<Reply>,
    n: int,
    f: int,
    view: u64,
) -> bool {
    forall|replies: &Vec<Reply>, r: Result<bool, Call>| #[trigger]
        call_ensures(restore, (session, replies), r) && reply_views(replies@) == reply_views(
            all@,
        ).take(n) ==> r is Err && gives_back(
            r->Err_0@,
            view,
            leaves(session@.layout->0)[f],
        )
}

/// The sidebar comes back with the root that it had, if that still is a
/// directory, and scrolled to where it was.
pub proof fn law_sidebar_back(
    state: &SidebarState,
    root_is_dir: bool,
    disk: &Listings,
    changes: &Vec<Option<FileChange>>,
    r: Option<FileTree>,
)
    requires
        call_ensures(restore_sidebar, (state, root_is_dir, disk, changes), r),
    ensures
        r is Some <==> root_is_dir,
        r matches Some(t) ==> t.root@ == state.root@ && t.scroll == state.scroll && t@.marked.len()
            == 0 && !t.closed,
{
    law_restored(opened(state@.root, *disk, changes@), state@, *disk);
}

// ── Where it is kept ─────────────────────────────────────────────────────
/// Sessions that are switched off on the command line are off; a directory
/// that is given there is the one that they are kept in.
pub proof fn law_sessions_set_up(
    args: &Args,
    session_env: &Option<String>,
    dir_env: &Option<PathBuf>,
    cache_dir: &PathBuf,
    r: Option<SessionConfig>,
)
    requires
        call_ensures(SessionConfig::resolve, (args, session_env, dir_env, cache_dir), r),
    ensures
        args.session is Disabled ==> r is None,
        args.session is Enabled ==> r is Some,
        r matches Some(c) ==> {
            &&& args.session_dir matches Some(d) ==> c.dir@ == d@
            &&& args.session_dir is None ==> (*dir_env matches Some(d) ==> c.dir@ == d@)
            &&& args.session_dir is None && *dir_env is None ==> c.dir@ == joined(
                cache_dir@,
                "sessions"@,
            )
            &&& args.session matches SessionArg::Enabled(None) ==> c.name is None
        },
{
    law_session_config(
        args@.session,
        args@.session_dir,
        opt_text(*session_env),
        path_text(*dir_env),
        cache_dir@,
    );
}

/// A name keeps those characters that are safe in a file name, and no others.
pub proof fn law_name_made_safe(name: &str, r: String)
    requires
        call_ensures(sanitize_name, (name,), r),
    ensures
        r@ == name@.filter(
            |c: char|
                'a' <= c <= 'z' || 'A' <= c <= 'Z' || '0' <= c <= '9' || c == '-' || c == '_' || c
                    == '.',
        ),
{
    let safe = |c: char|
        'a' <= c <= 'z' || 'A' <= c <= 'Z' || '0' <= c <= '9' || c == '-' || c == '_' || c == '.';
    assert(safe =~= |c: char| is_safe(c));
}

} // verus!

//! Paths as a user writes them, with `~`, `.` and `..`.
use crate::path::{
    is_name, joined, lemma_join_name, lemma_root, part_views, parts, path_text, segment, Component,
    Part, PathBuf,
};
use crate::text::{last_index, lemma_last_index, same};
use vstd::prelude::*;

verus! {

/// Components with a leading `~` replaced by the home directory, where that
/// is known.
pub open spec fn expanded(p: Seq<Part>, home: Option<Seq<char>>) -> Seq<Part> {
    if p.len() > 0 && p[0] == Part::Name("~"@) && home is Some {
        parts(home->0) + p.skip(1)
    } else {
        p
    }
}

/// Where one more component leads: `.` stays, `..` goes back over a name, and
/// at the root or at the start it stays as well.
pub open spec fn stepped(p: Seq<Part>, next: Part) -> Seq<Part> {
    match next {
        Part::Current => p,
        Part::Up => if p.len() > 0 && p.last() is Name {
            p.drop_last()
        } else {
            p
        },
        _ => p.push(next),
    }
}

/// Components without `.` and `..`.
pub open spec fn without_dots(p: Seq<Part>) -> Seq<Part>
    decreases p.len(),
{
    if p.len() == 0 {
        p
    } else {
        stepped(without_dots(p.drop_last()), p.last())
    }
}

/// The text of one component.
pub open spec fn part_text(p: Part) -> Seq<char> {
    match p {
        Part::Root => "/"@,
        Part::Current => "."@,
        Part::Up => ".."@,
        Part::Name(n) => n,
    }
}

/// The path that components make up.
pub open spec fn rendered(p: Seq<Part>) -> Seq<char>
    decreases p.len(),
{
    if p.len() == 0 {
        Seq::empty()
    } else {
        joined(rendered(p.drop_last()), part_text(p.last()))
    }
}

/// A path with `~` expanded and without `.` and `..` components.
pub open spec fn normalized(t: Seq<char>, home: Option<Seq<char>>) -> Seq<char> {
    rendered(without_dots(expanded(parts(t), home)))
}

/// The same for a path that there may be.
pub open spec fn normalized_some(t: Option<Seq<char>>, home: Option<Seq<char>>) -> Option<Seq<char>> {
    match t {
        Some(t) => Some(normalized(t, home)),
        None => None,
    }
}

fn copy_component(c: &Component) -> (r: Component)
    ensures
        r@ == c@,
{
    match c {
        Component::RootDir => Component::RootDir,
        Component::CurDir => Component::CurDir,
        Component::ParentDir => Component::ParentDir,
        Component::Normal(n) => Component::Normal(n.clone()),
    }
}

/// The components of a path with `~` expanded.
fn expand_tilde(path: &PathBuf, home: &Option<PathBuf>) -> (r: Vec<Component>)
    ensures
        part_views(r@) == expanded(parts(path@), path_text(*home)),
{
    let own = path.components();
    let ghost p = part_views(own@);
    assert(p == parts(path@));
    if own.len() == 0 {
        return own;
    }
    let tilde = match &own[0] {
        Component::Normal(n) => same(n, "~"),
        _ => false,
    };
    assert(p[0] == own@[0]@);
    assert(tilde == (p[0] == Part::Name("~"@)));
    match home {
        Some(home) if tilde => {
            let mut out = home.components();
            let ghost front = part_views(out@);
            let mut i: usize = 1;
            assert(part_views(out@) =~= front + p.subrange(1, 1));
            while i < own.len()
                invariant
                    1 <= i <= own@.len(),
                    p == part_views(own@),
                    part_views(out@) == front + p.subrange(1, i as int),
                decreases own@.len() - i,
            {
                let ghost before = out@;
                out.push(copy_component(&own[i]));
                assert(part_views(out@) =~= part_views(before).push(p[i as int]));
                assert(part_views(out@) =~= front + p.subrange(1, i + 1));
                i += 1;
            }
            assert(p.subrange(1, i as int) =~= p.skip(1));
            out
        },
        _ => own,
    }
}

/// The components that are left without `.` and `..`.
fn drop_dots(all: &Vec<Component>) -> (r: Vec<Component>)
    ensures
        part_views(r@) == without_dots(part_views(all@)),
{
    let ghost p = part_views(all@);
    let mut out: Vec<Component> = Vec::new();
    let mut i: usize = 0;
    assert(part_views(out@) =~= without_dots(p.take(0)));
    while i < all.len()
        invariant
            i <= all@.len(),
            p == part_views(all@),
            part_views(out@) == without_dots(p.take(i as int)),
        decreases all@.len() - i,
    {
        let ghost before = part_views(out@);
        assert(p.take(i + 1).drop_last() =~= p.take(i as int));
        assert(p.take(i + 1).last() == all@[i as int]@);
        match &all[i] {
            Component::CurDir => {},
            Component::ParentDir => {
                let len = out.len();
                let back = if len > 0 {
                    matches!(out[len - 1], Component::Normal(_))
                } else {
                    false
                };
                if back {
                    out.pop();
                    assert(part_views(out@) =~= before.drop_last());
                }
            },
            c => {
                out.push(copy_component(c));
                assert(part_views(out@) =~= before.push(all@[i as int]@));
            },
        }
        i += 1;
    }
    assert(p.take(i as int) =~= p);
    out
}

/// The path that components make up.
fn render_path(all: &Vec<Component>) -> (r: PathBuf)
    ensures
        r@ == rendered(part_views(all@)),
{
    let ghost p = part_views(all@);
    let mut out = PathBuf::from("");
    proof {
        reveal_strlit("");
    }
    let mut i: usize = 0;
    assert(out@ =~= rendered(p.take(0)));
    while i < all.len()
        invariant
            i <= all@.len(),
            p == part_views(all@),
            out@ == rendered(p.take(i as int)),
        decreases all@.len() - i,
    {
        assert(p.take(i + 1).drop_last() =~= p.take(i as int));
        assert(p.take(i + 1).last() == all@[i as int]@);
        out = match &all[i] {
            Component::RootDir => out.join("/"),
            Component::CurDir => out.join("."),
            Component::ParentDir => out.join(".."),
            Component::Normal(n) => out.join(n),
        };
        i += 1;
    }
    assert(p.take(i as int) =~= p);
    out
}

/// Expand `~` and normalize away `.`/`..` components.
pub fn normalize_path(path: &PathBuf, home: &Option<PathBuf>) -> (r: PathBuf)
    ensures
        r@ == normalized(path@, path_text(*home)),
{
    render_path(&drop_dots(&expand_tilde(path, home)))
}

/// Normalizes a path that there may be.
pub(crate) fn normalize_some(path: &Option<PathBuf>, home: &Option<PathBuf>) -> (r: Option<PathBuf>)
    ensures
        path_text(r) == normalized_some(path_text(*path), path_text(*home)),
{
    match path {
        Some(path) => Some(normalize_path(path, home)),
        None => None,
    }
}

// ── Laws ─────────────────────────────────────────────────────────────────
/// Whether components can be those of one path: only the first is the root,
/// and names are names.
spec fn proper(p: Seq<Part>) -> bool {
    forall|i: int|
        0 <= i < p.len() ==> match #[trigger] p[i] {
            Part::Root => i == 0,
            Part::Name(n) => is_name(n),
            _ => true,
        }
}

/// Whether there is neither `.` nor `..` among components.
pub open spec fn dotless(p: Seq<Part>) -> bool {
    forall|i: int| 0 <= i < p.len() ==> #[trigger] p[i] is Root || p[i] is Name
}

proof fn lemma_segment(t: Seq<char>)
    requires
        last_index(t, '/') < 0,
    ensures
        forall|i: int|
            0 <= i < segment(t).len() ==> match #[trigger] segment(t)[i] {
                Part::Name(n) => is_name(n),
                p => p is Up,
            },
{
    if segment(t).len() > 0 && segment(t)[0] is Name {
        assert(segment(t)[0] == Part::Name(t));
    }
}

proof fn lemma_no_index(s: Seq<char>)
    requires
        forall|i: int| 0 <= i < s.len() ==> s[i] != '/',
    ensures
        last_index(s, '/') < 0,
{
    lemma_last_index(s, '/');
}

proof fn lemma_parts_proper(t: Seq<char>)
    ensures
        proper(parts(t)),
    decreases t.len(),
{
    lemma_last_index(t, '/');
    let k = last_index(t, '/');
    if k < 0 {
        lemma_segment(t);
    } else {
        lemma_no_index(t.skip(k + 1));
        lemma_segment(t.skip(k + 1));
        if k > 0 {
            lemma_parts_proper(t.take(k));
        }
    }
}

proof fn lemma_without_dots(p: Seq<Part>)
    requires
        proper(p),
    ensures
        proper(without_dots(p)),
        dotless(without_dots(p)),
        without_dots(p).len() <= p.len(),
    decreases p.len(),
{
    if p.len() > 0 {
        assert(proper(p.drop_last())) by {
            assert forall|i: int| 0 <= i < p.drop_last().len() implies match #[trigger] p.drop_last()[i] {
                Part::Root => i == 0,
                Part::Name(n) => is_name(n),
                _ => true,
            } by {
                assert(p.drop_last()[i] == p[i]);
            }
        }
        lemma_without_dots(p.drop_last());
        assert(p.last() == p[p.len() - 1]);
    }
}

proof fn lemma_rendered(p: Seq<Part>)
    requires
        proper(p),
        dotless(p),
    ensures
        parts(rendered(p)) == p,
    decreases p.len(),
{
    if p.len() == 0 {
        assert(last_index(Seq::<char>::empty(), '/') == -1);
        assert(parts(rendered(p)) =~= p);
    } else {
        let q = p.drop_last();
        assert forall|i: int| 0 <= i < q.len() implies #[trigger] q[i] == p[i] by {}
        lemma_rendered(q);
        assert(p.last() == p[p.len() - 1]);
        match p.last() {
            Part::Name(n) => {
                lemma_join_name(rendered(q), n);
                assert(q.push(p.last()) =~= p);
            },
            _ => {
                reveal_strlit("/");
                assert(p =~= seq![Part::Root]);
                assert(rendered(p) =~= "/"@);
                lemma_root("/"@);
                assert("/"@.take(1) =~= "/"@);
            },
        }
    }
}

proof fn lemma_dotless_kept(p: Seq<Part>)
    requires
        dotless(p),
    ensures
        without_dots(p) == p,
    decreases p.len(),
{
    if p.len() > 0 {
        let q = p.drop_last();
        assert forall|i: int| 0 <= i < q.len() implies #[trigger] q[i] is Root || q[i] is Name by {
            assert(q[i] == p[i]);
        }
        lemma_dotless_kept(q);
        assert(p.last() == p[p.len() - 1]);
        assert(without_dots(p) =~= p);
    }
}

/// What is normalized holds neither `.` nor `..`, and a path that holds
/// neither is normalized, up to how its separators are written: normalizing
/// keeps its components, and does nothing the second time.
pub proof fn law_normalized(t: Seq<char>, home: Option<Seq<char>>)
    ensures
        dotless(parts(normalized(t, home))),
        dotless(parts(t)) ==> parts(normalized(t, None)) == parts(t),
        normalized(normalized(t, home), None) == normalized(t, home),
{
    lemma_parts_proper(t);
    let p = expanded(parts(t), home);
    assert(proper(p)) by {
        if home is Some {
            lemma_parts_proper(home->0);
        }
    }
    lemma_without_dots(p);
    lemma_rendered(without_dots(p));
    lemma_dotless_kept(without_dots(p));
    if dotless(parts(t)) {
        lemma_dotless_kept(parts(t));
        lemma_rendered(parts(t));
    }
}

/// A path that starts with `~` leads from the home directory on.
pub proof fn law_home(rest: Seq<char>, home: Seq<char>)
    requires
        is_name(rest),
        dotless(parts(home)),
    ensures
        parts(normalized(joined("~"@, rest), Some(home))) == parts(home).push(Part::Name(rest)),
{
    reveal_strlit("~");
    let tilde = "~"@;
    lemma_no_index(tilde);
    assert(segment(tilde) =~= seq![Part::Name(tilde)]);
    assert(parts(tilde) =~= seq![Part::Name(tilde)]);
    lemma_join_name(tilde, rest);
    let p = parts(joined(tilde, rest));
    let all = parts(home).push(Part::Name(rest));
    assert(p.skip(1) =~= seq![Part::Name(rest)]);
    assert(expanded(p, Some(home)) =~= all);
    lemma_parts_proper(home);
    lemma_dotless_kept(all);
    lemma_rendered(all);
}

} // verus!

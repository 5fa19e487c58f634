//! File system paths.
//!
//! A path is a text in which `/` separates components. Two paths are the same
//! when their components are: repeated separators, separators at the end and
//! `.` components other than a leading one do not count.
use crate::order::{
    lemma_lex_asymmetric, lemma_lex_irreflexive, lemma_lex_skip, lemma_lex_total,
    lemma_lex_transitive, lex, strict_total,
};
use crate::text::{
    char_order, chars_less, chars_of, concat, find_last, last_index, lemma_char_order,
    lemma_last_index, same, string_of, text_less,
};
use vstd::prelude::*;

verus! {

/// One component of a path.
pub enum Part {
    /// The leading `/` of an absolute path.
    Root,
    /// A leading `.`.
    Current,
    /// `..`.
    Up,
    /// A name.
    Name(Seq<char>),
}

/// What a segment contributes that follows a separator.
pub open spec fn segment(t: Seq<char>) -> Seq<Part> {
    if t.len() == 0 || (t.len() == 1 && t[0] == '.') {
        Seq::empty()
    } else if t.len() == 2 && t[0] == '.' && t[1] == '.' {
        seq![Part::Up]
    } else {
        seq![Part::Name(t)]
    }
}

/// What a path without any separator consists of.
pub open spec fn lone(t: Seq<char>) -> Seq<Part> {
    if t.len() == 1 && t[0] == '.' {
        seq![Part::Current]
    } else {
        segment(t)
    }
}

/// The components of a path.
pub open spec fn parts(t: Seq<char>) -> Seq<Part>
    decreases t.len(),
{
    let k = last_index(t, '/');
    if k < 0 {
        lone(t)
    } else if k == 0 {
        seq![Part::Root] + segment(t.skip(1))
    } else {
        proof {
            lemma_last_index(t, '/');
        }
        parts(t.take(k)) + segment(t.skip(k + 1))
    }
}

/// A path without the separators and `.` components at its end.
pub open spec fn shorten(t: Seq<char>) -> Seq<char>
    decreases t.len(),
{
    let k = last_index(t, '/');
    if k < 0 || segment(t.skip(k + 1)).len() > 0 {
        t
    } else if k == 0 {
        t.take(1)
    } else {
        proof {
            lemma_last_index(t, '/');
        }
        shorten(t.take(k))
    }
}

/// The path without its last component; the root and the empty path have no
/// parent.
pub open spec fn parent(t: Seq<char>) -> Option<Seq<char>>
    decreases t.len(),
{
    let k = last_index(t, '/');
    if k < 0 {
        if t.len() == 0 {
            None
        } else {
            Some(Seq::empty())
        }
    } else if segment(t.skip(k + 1)).len() > 0 {
        if k == 0 {
            Some(t.take(1))
        } else {
            Some(shorten(t.take(k)))
        }
    } else if k == 0 {
        None
    } else {
        proof {
            lemma_last_index(t, '/');
        }
        parent(t.take(k))
    }
}

/// The name that a path ends with, if it ends with a name.
pub open spec fn file_name(t: Seq<char>) -> Option<Seq<char>> {
    if parts(t).len() == 0 {
        None
    } else {
        match parts(t).last() {
            Part::Name(n) => Some(n),
            _ => None,
        }
    }
}

/// `rel` seen from `base`: an absolute `rel` stands for itself.
pub open spec fn joined(base: Seq<char>, rel: Seq<char>) -> Seq<char> {
    if rel.len() > 0 && rel[0] == '/' {
        rel
    } else if base.len() == 0 || base.last() == '/' {
        base + rel
    } else {
        base.push('/') + rel
    }
}

/// Whether `base` is `t` or one of the directories that `t` lies in.
pub open spec fn within(t: Seq<char>, base: Seq<char>) -> bool {
    parts(base).is_prefix_of(parts(t))
}

/// What is left of `t` after its first `n` components.
pub open spec fn remainder(t: Seq<char>, n: nat) -> Seq<char>
    decreases t.len(),
{
    let k = last_index(t, '/');
    if n == 0 {
        t
    } else if parts(t).len() <= n || k < 0 {
        Seq::empty()
    } else if k == 0 || parts(t.take(k)).len() <= n {
        t.skip(k + 1)
    } else {
        proof {
            lemma_last_index(t, '/');
        }
        remainder(t.take(k), n) + t.skip(k)
    }
}

/// `t` relative to `base`, where it lies within `base`.
pub open spec fn relative(t: Seq<char>, base: Seq<char>) -> Option<Seq<char>> {
    if within(t, base) {
        Some(remainder(shorten(t), parts(base).len()))
    } else {
        None
    }
}

/// `t`, its parent, the parent of that, and so on.
pub open spec fn ancestors(t: Seq<char>) -> Seq<Seq<char>>
    decreases t.len(),
{
    match parent(t) {
        Some(p) => {
            proof {
                lemma_parent(t);
            }
            seq![t] + ancestors(p)
        },
        None => seq![t],
    }
}

/// Shortening a path keeps its components.
pub proof fn lemma_shorten(t: Seq<char>)
    ensures
        parts(shorten(t)) == parts(t),
        shorten(t).len() <= t.len(),
    decreases t.len(),
{
    lemma_last_index(t, '/');
    let k = last_index(t, '/');
    if k >= 0 && segment(t.skip(k + 1)).len() == 0 {
        if k == 0 {
            lemma_root(t);
        } else {
            lemma_shorten(t.take(k));
            assert(parts(t) =~= parts(t.take(k)));
        }
    }
}

/// The first character of an absolute path stands for its root.
pub proof fn lemma_root(t: Seq<char>)
    requires
        t.len() > 0,
        t[0] == '/',
    ensures
        parts(t.take(1)) == seq![Part::Root],
{
    let r = t.take(1);
    assert(r.last() == '/');
    assert(last_index(r, '/') == 0);
    assert(r.skip(1) =~= Seq::empty());
    assert(parts(r) =~= seq![Part::Root]);
}

/// Going to the parent drops the last component, and every path has a parent
/// but the empty one and the root.
pub proof fn lemma_parent(t: Seq<char>)
    ensures
        match parent(t) {
            Some(p) => parts(t).len() > 0 && parts(p) == parts(t).drop_last() && p.len() < t.len()
                && parts(t).last() != Part::Root,
            None => parts(t).len() == 0 || parts(t) == seq![Part::Root],
        },
    decreases t.len(),
{
    lemma_last_index(t, '/');
    let k = last_index(t, '/');
    if k < 0 {
        if t.len() > 0 {
            assert(last_index(Seq::<char>::empty(), '/') == -1);
            assert(parts(Seq::<char>::empty()) =~= Seq::empty());
            assert(parts(t).drop_last() =~= Seq::empty());
        }
    } else if segment(t.skip(k + 1)).len() > 0 {
        if k == 0 {
            lemma_root(t);
            assert(parts(t).drop_last() =~= seq![Part::Root]);
            assert(parts(t).last() == segment(t.skip(1)).last());
        } else {
            lemma_shorten(t.take(k));
            assert(parts(t).drop_last() =~= parts(t.take(k)));
            assert(parts(t).last() == segment(t.skip(k + 1)).last());
        }
    } else if k == 0 {
        assert(parts(t) =~= seq![Part::Root]);
    } else {
        lemma_parent(t.take(k));
        assert(parts(t) =~= parts(t.take(k)));
    }
}

/// Whether a text is one name: not empty, no separator, not `.` or `..`.
pub open spec fn is_name(n: Seq<char>) -> bool {
    &&& n.len() > 0
    &&& last_index(n, '/') < 0
    &&& segment(n) == seq![Part::Name(n)]
}

proof fn lemma_last_index_append(a: Seq<char>, n: Seq<char>)
    requires
        last_index(n, '/') < 0,
    ensures
        last_index(a + n, '/') == last_index(a, '/'),
    decreases n.len(),
{
    if n.len() == 0 {
        assert(a + n =~= a);
    } else {
        lemma_last_index(n, '/');
        assert((a + n).drop_last() =~= a + n.drop_last());
        assert((a + n).last() == n.last());
        assert(n[n.len() - 1] != '/');
        assert(last_index(n.drop_last(), '/') < 0);
        lemma_last_index_append(a, n.drop_last());
    }
}

/// Joining a name adds it as the last component.
pub proof fn lemma_join_name(base: Seq<char>, n: Seq<char>)
    requires
        is_name(n),
    ensures
        parts(joined(base, n)) == parts(base).push(Part::Name(n)),
{
    lemma_last_index(n, '/');
    assert(n[0] != '/');
    let t = joined(base, n);
    if base.len() == 0 {
        assert(t =~= n);
        assert(last_index(base, '/') == -1);
        assert(parts(base) =~= Seq::empty());
        assert(parts(t) == lone(n));
        assert(parts(t) =~= parts(base).push(Part::Name(n)));
    } else {
        let b = if base.last() == '/' {
            base
        } else {
            base.push('/')
        };
        assert(t == b + n);
        lemma_last_index_append(b, n);
        let k = b.len() - 1;
        assert(last_index(b, '/') == k);
        assert(t.skip(k + 1) =~= n);
        if base.last() == '/' {
            assert(t.take(k) =~= base.take(k));
            assert(base.skip(k + 1) =~= Seq::empty());
        } else {
            assert(t.take(k) =~= base);
        }
        assert(parts(t) =~= parts(base).push(Part::Name(n)));
    }
}

// ── Order ────────────────────────────────────────────────────────────────
/// The rank of a component among the kinds of components.
pub open spec fn rank(p: Part) -> int {
    match p {
        Part::Root => 0,
        Part::Current => 1,
        Part::Up => 2,
        Part::Name(_) => 3,
    }
}

/// Components are ordered by kind, and names as texts.
pub open spec fn part_order() -> spec_fn(Part, Part) -> bool {
    |a: Part, b: Part|
        rank(a) < rank(b) || (a matches Part::Name(x) && b matches Part::Name(y) && text_less(x, y))
}

/// Paths are ordered by their components.
pub open spec fn path_less(a: Seq<char>, b: Seq<char>) -> bool {
    lex(part_order(), parts(a), parts(b))
}

pub proof fn lemma_part_order()
    ensures
        strict_total(part_order()),
{
    lemma_char_order();
    let lt = part_order();
    let co = char_order();
    assert forall|x: Part| !#[trigger] lt(x, x) by {
        if let Part::Name(n) = x {
            lemma_lex_irreflexive(co, n);
        }
    }
    assert forall|x: Part, y: Part, z: Part| #[trigger] lt(x, y) && #[trigger] lt(
        y,
        z,
    ) implies lt(x, z) by {
        if rank(x) == rank(z) {
            lemma_lex_transitive(co, x->Name_0, y->Name_0, z->Name_0);
        }
    }
    assert forall|x: Part, y: Part| #![trigger lt(x, y)] x != y implies lt(x, y) || lt(y, x) by {
        if rank(x) == rank(y) {
            assert(x is Name && y is Name);
            lemma_lex_total(co, x->Name_0, y->Name_0);
        }
    }
}

/// The order of paths is a strict total order on their components.
pub proof fn lemma_path_order(a: Seq<char>, b: Seq<char>, c: Seq<char>)
    ensures
        path_less(a, b) ==> !path_less(b, a) && parts(a) != parts(b),
        path_less(a, b) && path_less(b, c) ==> path_less(a, c),
        parts(a) != parts(b) ==> path_less(a, b) || path_less(b, a),
{
    lemma_part_order();
    let lt = part_order();
    if path_less(a, b) {
        lemma_lex_asymmetric(lt, parts(a), parts(b));
        if path_less(b, c) {
            lemma_lex_transitive(lt, parts(a), parts(b), parts(c));
        }
    }
    if parts(a) != parts(b) {
        lemma_lex_total(lt, parts(a), parts(b));
    }
}

// ── Paths as values ──────────────────────────────────────────────────────
/// A component of a path, as a value.
#[derive(Debug)]
pub enum Component {
    RootDir,
    CurDir,
    ParentDir,
    Normal(String),
}

impl View for Component {
    type V = Part;

    open spec fn view(&self) -> Part {
        match self {
            Component::RootDir => Part::Root,
            Component::CurDir => Part::Current,
            Component::ParentDir => Part::Up,
            Component::Normal(n) => Part::Name(n@),
        }
    }
}

/// The components that a list of values stands for.
pub open spec fn part_views(s: Seq<Component>) -> Seq<Part> {
    Seq::new(s.len(), |i: int| s[i]@)
}

/// A path, as its text.
#[derive(Debug)]
pub struct PathBuf {
    pub text: String,
}

impl View for PathBuf {
    type V = Seq<char>;

    open spec fn view(&self) -> Seq<char> {
        self.text@
    }
}

impl Clone for PathBuf {
    fn clone(&self) -> (r: Self)
        ensures
            r == *self,
    {
        PathBuf { text: self.text.clone() }
    }
}

impl PartialEq for PathBuf {
    /// Paths are equal when their components are.
    fn eq(&self, other: &Self) -> (r: bool) {
        self.same_as(other)
    }
}

impl vstd::std_specs::cmp::PartialEqSpecImpl for PathBuf {
    open spec fn obeys_eq_spec() -> bool {
        true
    }

    open spec fn eq_spec(&self, other: &Self) -> bool {
        parts(self@) == parts(other@)
    }
}

impl Eq for PathBuf {

}

/// The components of the segment `chars[from..to]`, which follows a separator.
fn push_segment(out: &mut Vec<Component>, chars: &Vec<char>, from: usize, to: usize)
    requires
        from <= to <= chars@.len(),
    ensures
        part_views(final(out)@) == part_views(old(out)@) + segment(
            chars@.subrange(from as int, to as int),
        ),
{
    let ghost t = chars@.subrange(from as int, to as int);
    let n = to - from;
    if n == 0 || (n == 1 && chars[from] == '.') {
        assert(part_views(out@) + segment(t) =~= part_views(out@));
    } else if n == 2 && chars[from] == '.' && chars[from + 1] == '.' {
        let ghost before = out@;
        out.push(Component::ParentDir);
        assert(part_views(out@) =~= part_views(before) + segment(t));
    } else {
        let ghost before = out@;
        out.push(Component::Normal(string_of(chars, from, to)));
        assert(part_views(out@) =~= part_views(before) + segment(t));
    }
}

/// The components of `chars[..to]`.
fn components_to(chars: &Vec<char>, to: usize) -> (r: Vec<Component>)
    requires
        to <= chars@.len(),
    ensures
        part_views(r@) == parts(chars@.take(to as int)),
    decreases to,
{
    let ghost t = chars@.take(to as int);
    match find_last(chars, to, '/') {
        None => {
            let mut out: Vec<Component> = Vec::new();
            if to == 1 && chars[0] == '.' {
                out.push(Component::CurDir);
                assert(part_views(out@) =~= parts(t));
            } else {
                push_segment(&mut out, chars, 0, to);
                assert(chars@.subrange(0, to as int) =~= t);
                assert(part_views(out@) =~= parts(t));
            }
            out
        },
        Some(k) => {
            let mut out: Vec<Component> = Vec::new();
            if k == 0 {
                out.push(Component::RootDir);
                assert(part_views(out@) =~= seq![Part::Root]);
            } else {
                out = components_to(chars, k);
                assert(t.take(k as int) =~= chars@.take(k as int));
            }
            push_segment(&mut out, chars, k + 1, to);
            assert(chars@.subrange(k + 1, to as int) =~= t.skip(k + 1));
            out
        },
    }
}

/// The length of `chars[..to]` without the separators and `.` components at
/// its end.
fn shorten_to(chars: &Vec<char>, to: usize) -> (r: usize)
    requires
        to <= chars@.len(),
    ensures
        r <= to,
        chars@.take(r as int) == shorten(chars@.take(to as int)),
    decreases to,
{
    let ghost t = chars@.take(to as int);
    match find_last(chars, to, '/') {
        None => to,
        Some(k) => {
            assert(t.skip(k + 1) =~= chars@.subrange(k + 1, to as int));
            if is_redundant(chars, k + 1, to) {
                if k == 0 {
                    assert(t.take(1) =~= chars@.take(1));
                    1
                } else {
                    assert(t.take(k as int) =~= chars@.take(k as int));
                    shorten_to(chars, k)
                }
            } else {
                to
            }
        },
    }
}

/// Whether the segment `chars[from..to]` is empty or `.`.
fn is_redundant(chars: &Vec<char>, from: usize, to: usize) -> (r: bool)
    requires
        from <= to <= chars@.len(),
    ensures
        r == (segment(chars@.subrange(from as int, to as int)).len() == 0),
{
    to == from || (to - from == 1 && chars[from] == '.')
}

/// The length of the parent of `chars[..to]`.
fn parent_to(chars: &Vec<char>, to: usize) -> (r: Option<usize>)
    requires
        to <= chars@.len(),
    ensures
        match r {
            Some(k) => k <= to && parent(chars@.take(to as int)) == Some(chars@.take(k as int)),
            None => parent(chars@.take(to as int)) is None,
        },
    decreases to,
{
    let ghost t = chars@.take(to as int);
    match find_last(chars, to, '/') {
        None => {
            if to == 0 {
                None
            } else {
                assert(chars@.take(0) =~= Seq::empty());
                Some(0)
            }
        },
        Some(k) => {
            assert(t.skip(k + 1) =~= chars@.subrange(k + 1, to as int));
            assert(t.take(1) =~= chars@.take(1));
            assert(t.take(k as int) =~= chars@.take(k as int));
            if !is_redundant(chars, k + 1, to) {
                if k == 0 {
                    Some(1)
                } else {
                    Some(shorten_to(chars, k))
                }
            } else if k == 0 {
                None
            } else {
                parent_to(chars, k)
            }
        },
    }
}

/// What is left of `chars[..to]` after its first `n` components.
fn remainder_to(chars: &Vec<char>, to: usize, n: usize) -> (r: usize)
    requires
        to <= chars@.len(),
    ensures
        r <= to,
        chars@.subrange(r as int, to as int) == remainder(chars@.take(to as int), n as nat),
    decreases to,
{
    let ghost t = chars@.take(to as int);
    if n == 0 {
        assert(chars@.subrange(0, to as int) =~= t);
        return 0;
    }
    let count = components_to(chars, to).len();
    match find_last(chars, to, '/') {
        None => {
            assert(chars@.subrange(to as int, to as int) =~= Seq::empty());
            to
        },
        Some(k) => {
            if count <= n {
                assert(chars@.subrange(to as int, to as int) =~= Seq::empty());
                return to;
            }
            assert(t.take(k as int) =~= chars@.take(k as int));
            assert(chars@.subrange(k + 1, to as int) =~= t.skip(k + 1));
            if k == 0 || components_to(chars, k).len() <= n {
                k + 1
            } else {
                let r = remainder_to(chars, k, n);
                assert(chars@.subrange(r as int, to as int) =~= chars@.subrange(r as int, k as int)
                    + t.skip(k as int));
                r
            }
        },
    }
}

/// Whether two components are the same.
fn same_component(a: &Component, b: &Component) -> (r: bool)
    ensures
        r == (a@ == b@),
{
    match (a, b) {
        (Component::RootDir, Component::RootDir) => true,
        (Component::CurDir, Component::CurDir) => true,
        (Component::ParentDir, Component::ParentDir) => true,
        (Component::Normal(x), Component::Normal(y)) => same(x, y),
        _ => false,
    }
}

/// The rank of a component among the kinds of components.
fn rank_of(c: &Component) -> (r: u8)
    ensures
        r == rank(c@),
{
    match c {
        Component::RootDir => 0,
        Component::CurDir => 1,
        Component::ParentDir => 2,
        Component::Normal(_) => 3,
    }
}

/// Whether the first component comes before the second.
fn component_less(a: &Component, b: &Component) -> (r: bool)
    ensures
        r == part_order()(a@, b@),
{
    let (x, y) = (rank_of(a), rank_of(b));
    if x != y {
        return x < y;
    }
    match (a, b) {
        (Component::Normal(x), Component::Normal(y)) => chars_less(&chars_of(x), &chars_of(y)),
        _ => false,
    }
}

/// The number of components that two lists share at their start.
fn common_len(a: &Vec<Component>, b: &Vec<Component>) -> (r: usize)
    ensures
        r <= a@.len(),
        r <= b@.len(),
        part_views(a@).take(r as int) == part_views(b@).take(r as int),
        r < a@.len() && r < b@.len() ==> a@[r as int]@ != b@[r as int]@,
{
    let mut i: usize = 0;
    assert(part_views(a@).take(0) =~= part_views(b@).take(0));
    while i < a.len() && i < b.len() && same_component(&a[i], &b[i])
        invariant
            i <= a@.len(),
            i <= b@.len(),
            part_views(a@).take(i as int) == part_views(b@).take(i as int),
        ensures
            i <= a@.len(),
            i <= b@.len(),
            part_views(a@).take(i as int) == part_views(b@).take(i as int),
            i < a@.len() && i < b@.len() ==> a@[i as int]@ != b@[i as int]@,
        decreases a@.len() - i,
    {
        assert(part_views(a@).take(i + 1) =~= part_views(a@).take(i as int).push(a@[i as int]@));
        assert(part_views(b@).take(i + 1) =~= part_views(b@).take(i as int).push(b@[i as int]@));
        i += 1;
    }
    i
}

impl PathBuf {
    /// The path with the given text.
    pub fn from(text: &str) -> (r: PathBuf)
        ensures
            r@ == text@,
    {
        PathBuf { text: text.to_owned() }
    }

    /// The components of the path.
    pub fn components(&self) -> (r: Vec<Component>)
        ensures
            part_views(r@) == parts(self@),
    {
        let chars = chars_of(&self.text);
        assert(chars@.take(chars@.len() as int) =~= chars@);
        components_to(&chars, chars.len())
    }

    /// The number of components of the path.
    pub fn component_count(&self) -> (r: usize)
        ensures
            r == parts(self@).len(),
    {
        let c = self.components();
        assert(part_views(c@).len() == c@.len());
        c.len()
    }

    /// Whether two paths have the same components.
    pub fn same_as(&self, other: &PathBuf) -> (r: bool)
        ensures
            r == (parts(self@) == parts(other@)),
    {
        let a = self.components();
        let b = other.components();
        let n = common_len(&a, &b);
        proof {
            let (pa, pb) = (part_views(a@), part_views(b@));
            if n == pa.len() && n == pb.len() {
                assert(pa.take(n as int) =~= pa);
                assert(pb.take(n as int) =~= pb);
            } else if n < pa.len() && n < pb.len() {
                assert(pa[n as int] != pb[n as int]);
            }
        }
        n == a.len() && n == b.len()
    }

    /// Whether the path comes before another one in the order of paths.
    pub fn comes_before(&self, other: &PathBuf) -> (r: bool)
        ensures
            r == path_less(self@, other@),
    {
        let a = self.components();
        let b = other.components();
        let n = common_len(&a, &b);
        proof {
            lemma_lex_skip(part_order(), part_views(a@), part_views(b@), n as nat);
        }
        if n == b.len() {
            false
        } else if n == a.len() {
            true
        } else {
            component_less(&a[n], &b[n])
        }
    }

    /// Whether the path is `base` or lies in it.
    pub fn starts_with(&self, base: &PathBuf) -> (r: bool)
        ensures
            r == within(self@, base@),
    {
        let a = self.components();
        let b = base.components();
        let n = common_len(&a, &b);
        proof {
            let (pa, pb) = (part_views(a@), part_views(b@));
            if n == pb.len() {
                assert(pb.take(n as int) =~= pb);
            } else if n < pa.len() {
                if pb.is_prefix_of(pa) {
                    assert(pa.take(pb.len() as int)[n as int] == pa[n as int]);
                }
                assert(pa[n as int] != pb[n as int]);
            }
        }
        n == b.len()
    }

    /// The name that the path ends with.
    pub fn file_name(&self) -> (r: Option<String>)
        ensures
            match r {
                Some(n) => file_name(self@) == Some(n@),
                None => file_name(self@) is None,
            },
    {
        let mut c = self.components();
        let ghost views = part_views(c@);
        match c.pop() {
            Some(Component::Normal(n)) => Some(n),
            _ => None,
        }
    }

    /// The path without its last component.
    pub fn parent(&self) -> (r: Option<PathBuf>)
        ensures
            match r {
                Some(p) => parent(self@) == Some(p@),
                None => parent(self@) is None,
            },
    {
        let chars = chars_of(&self.text);
        assert(chars@.take(chars@.len() as int) =~= chars@);
        match parent_to(&chars, chars.len()) {
            Some(k) => {
                assert(chars@.subrange(0, k as int) =~= chars@.take(k as int));
                Some(PathBuf { text: string_of(&chars, 0, k) })
            },
            None => None,
        }
    }

    /// `rel` seen from this path.
    pub fn join(&self, rel: &str) -> (r: PathBuf)
        ensures
            r@ == joined(self@, rel@),
    {
        let base = chars_of(&self.text);
        let tail = chars_of(rel);
        if tail.len() > 0 && tail[0] == '/' {
            PathBuf { text: rel.to_owned() }
        } else if base.len() == 0 || base[base.len() - 1] == '/' {
            PathBuf { text: concat(&self.text, rel) }
        } else {
            let mut text = self.text.clone();
            text.push('/');
            PathBuf { text: concat(&text, rel) }
        }
    }

    /// The path relative to `base`, where it lies within `base`.
    pub fn strip_prefix(&self, base: &PathBuf) -> (r: Option<PathBuf>)
        ensures
            match r {
                Some(p) => relative(self@, base@) == Some(p@),
                None => relative(self@, base@) is None,
            },
    {
        if !self.starts_with(base) {
            return None;
        }
        let chars = chars_of(&self.text);
        assert(chars@.take(chars@.len() as int) =~= chars@);
        let to = shorten_to(&chars, chars.len());
        let from = remainder_to(&chars, to, base.component_count());
        Some(PathBuf { text: string_of(&chars, from, to) })
    }

    /// The path, its parent, the parent of that, and so on.
    pub fn ancestors(&self) -> (r: Vec<PathBuf>)
        ensures
            path_texts(r@) == ancestors(self@),
    {
        let mut out: Vec<PathBuf> = Vec::new();
        let mut next: PathBuf = self.clone();
        assert(path_texts(out@) + ancestors(next@) =~= ancestors(self@));
        loop
            invariant_except_break
                path_texts(out@) + ancestors(next@) == ancestors(self@),
            ensures
                path_texts(out@) == ancestors(self@),
            decreases next@.len(),
        {
            proof {
                lemma_parent(next@);
            }
            let up = next.parent();
            let ghost before = out@;
            let ghost current = next@;
            out.push(next);
            assert(path_texts(out@) =~= path_texts(before).push(current));
            match up {
                Some(p) => {
                    assert(path_texts(before) + (seq![current] + ancestors(p@)) =~= path_texts(out@)
                        + ancestors(p@));
                    next = p;
                },
                None => {
                    assert(path_texts(before) + seq![current] =~= path_texts(out@));
                    break;
                },
            }
        }
        out
    }
}

/// The text of an optional path.
pub open spec fn path_text(p: Option<PathBuf>) -> Option<Seq<char>> {
    match p {
        Some(p) => Some(p@),
        None => None,
    }
}

/// The texts of a list of paths.
pub open spec fn path_texts(s: Seq<PathBuf>) -> Seq<Seq<char>> {
    Seq::new(s.len(), |i: int| s[i]@)
}

} // verus!

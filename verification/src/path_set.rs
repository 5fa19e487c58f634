//! Sets of paths, kept in the order of paths.
use crate::path::{lemma_path_order, parts, path_less, path_texts, PathBuf};
use vstd::prelude::*;

verus! {

/// Whether a list of paths holds a path with the components of `t`.
pub open spec fn holds(s: Seq<Seq<char>>, t: Seq<char>) -> bool {
    exists|i: int| 0 <= i < s.len() && parts(#[trigger] s[i]) == parts(t)
}

/// Whether a list of paths is strictly increasing.
pub open spec fn increasing(s: Seq<Seq<char>>) -> bool {
    forall|i: int, j: int| 0 <= i < j < s.len() ==> path_less(#[trigger] s[i], #[trigger] s[j])
}

/// The number of paths at the start of `s` that come before `t`.
pub open spec fn place(s: Seq<Seq<char>>, t: Seq<char>) -> nat
    decreases s.len(),
{
    if s.len() > 0 && path_less(s[0], t) {
        1 + place(s.skip(1), t)
    } else {
        0
    }
}

/// `s` with `t` in it; a path that is already there stays as it is.
pub open spec fn inserted(s: Seq<Seq<char>>, t: Seq<char>) -> Seq<Seq<char>> {
    if holds(s, t) {
        s
    } else {
        s.insert(place(s, t) as int, t)
    }
}

/// `s` without the path that has the components of `t`.
pub open spec fn removed(s: Seq<Seq<char>>, t: Seq<char>) -> Seq<Seq<char>> {
    s.filter(|x: Seq<char>| parts(x) != parts(t))
}

/// What [`place`] gives: every path before it comes before `t`, and the path
/// at it does not.
pub proof fn lemma_place(s: Seq<Seq<char>>, t: Seq<char>)
    ensures
        place(s, t) <= s.len(),
        forall|i: int| 0 <= i < place(s, t) ==> path_less(#[trigger] s[i], t),
        place(s, t) < s.len() ==> !path_less(s[place(s, t) as int], t),
    decreases s.len(),
{
    if s.len() > 0 && path_less(s[0], t) {
        lemma_place(s.skip(1), t);
        assert forall|i: int| 0 <= i < place(s, t) implies path_less(#[trigger] s[i], t) by {
            if i > 0 {
                assert(path_less(s.skip(1)[i - 1], t));
            }
        }
    }
}

/// Inserting keeps the order and adds exactly the new path.
pub proof fn lemma_inserted(s: Seq<Seq<char>>, t: Seq<char>)
    requires
        increasing(s),
    ensures
        increasing(inserted(s, t)),
        forall|u: Seq<char>| #[trigger]
            holds(inserted(s, t), u) <==> holds(s, u) || parts(u) == parts(t),
{
    if !holds(s, t) {
        lemma_place(s, t);
        let k = place(s, t) as int;
        let r = s.insert(k, t);
        assert forall|i: int, j: int| 0 <= i < j < r.len() implies path_less(
            #[trigger] r[i],
            #[trigger] r[j],
        ) by {
            if i == k {
                lemma_path_order(s[k], t, t);
                assert(parts(s[k]) != parts(t));
                lemma_path_order(t, s[k], r[j]);
                if j > k + 1 {
                    assert(path_less(s[k], s[j - 1]));
                }
            } else if j == k {
                assert(r[i] == s[i]);
            } else if i < k && j > k {
                assert(r[j] == s[j - 1]);
                assert(path_less(s[i], s[j - 1]));
            } else if i < k {
                assert(path_less(s[i], s[j]));
            } else {
                assert(path_less(s[i - 1], s[j - 1]));
            }
        }
        assert forall|u: Seq<char>| #[trigger] holds(r, u) <==> holds(s, u) || parts(u) == parts(
            t,
        ) by {
            if holds(s, u) {
                let i = choose|i: int| 0 <= i < s.len() && parts(#[trigger] s[i]) == parts(u);
                assert(r[if i < k {
                    i
                } else {
                    i + 1
                }] == s[i]);
            }
            if holds(r, u) && parts(u) != parts(t) {
                let i = choose|i: int| 0 <= i < r.len() && parts(#[trigger] r[i]) == parts(u);
                assert(i != k);
                assert(s[if i < k {
                    i
                } else {
                    i - 1
                }] == r[i]);
            }
            assert(r[k] == t);
        }
    } else {
        assert forall|u: Seq<char>| parts(u) == parts(t) implies #[trigger] holds(s, u) by {
            let i = choose|i: int| 0 <= i < s.len() && parts(#[trigger] s[i]) == parts(t);
            assert(parts(s[i]) == parts(u));
        }
    }
}

/// Keeping some of the paths keeps their order.
pub proof fn lemma_filter_increasing(s: Seq<Seq<char>>, keep: spec_fn(Seq<char>) -> bool)
    requires
        increasing(s),
    ensures
        increasing(s.filter(keep)),
        forall|u: Seq<char>| #[trigger] s.filter(keep).contains(u) <==> s.contains(u) && keep(u),
    decreases s.len(),
{
    reveal(Seq::filter);
    if s.len() > 0 {
        let p = s.drop_last();
        assert(increasing(p)) by {
            assert forall|i: int, j: int| 0 <= i < j < p.len() implies path_less(
                #[trigger] p[i],
                #[trigger] p[j],
            ) by {
                assert(path_less(s[i], s[j]));
            }
        }
        lemma_filter_increasing(p, keep);
        let f = p.filter(keep);
        let g = s.filter(keep);
        assert forall|u: Seq<char>| s.contains(u) <==> p.contains(u) || u == s.last() by {
            if s.contains(u) {
                let i = choose|i: int| 0 <= i < s.len() && s[i] == u;
                if i < p.len() {
                    assert(p[i] == u);
                }
            }
            if p.contains(u) {
                let i = choose|i: int| 0 <= i < p.len() && p[i] == u;
                assert(s[i] == u);
            }
            assert(s[s.len() - 1] == s.last());
        }
        if keep(s.last()) {
            assert(g =~= f.push(s.last()));
            assert forall|i: int, j: int| 0 <= i < j < g.len() implies path_less(
                #[trigger] g[i],
                #[trigger] g[j],
            ) by {
                if j == f.len() {
                    assert(f.contains(f[i]));
                    assert(p.contains(f[i]));
                    let m = choose|m: int| 0 <= m < p.len() && p[m] == f[i];
                    assert(path_less(s[m], s[s.len() - 1]));
                } else {
                    assert(path_less(f[i], f[j]));
                }
            }
            assert forall|u: Seq<char>| #[trigger] g.contains(u) <==> f.contains(u) || u
                == s.last() by {
                if g.contains(u) {
                    let i = choose|i: int| 0 <= i < g.len() && g[i] == u;
                    if i < f.len() {
                        assert(f[i] == u);
                    }
                }
                if f.contains(u) {
                    let i = choose|i: int| 0 <= i < f.len() && f[i] == u;
                    assert(g[i] == u);
                }
                assert(g[f.len() as int] == s.last());
            }
        } else {
            assert(g =~= f);
        }
    }
}

/// A set of paths.
#[derive(Debug)]
pub struct PathSet {
    pub paths: Vec<PathBuf>,
}

impl View for PathSet {
    type V = Seq<Seq<char>>;

    open spec fn view(&self) -> Seq<Seq<char>> {
        path_texts(self.paths@)
    }
}

impl PathSet {
    /// The paths are in order and no two of them are the same.
    pub open spec fn wf(&self) -> bool {
        increasing(self@)
    }

    /// The empty set.
    pub fn new() -> (r: PathSet)
        ensures
            r.wf(),
            r@ == Seq::<Seq<char>>::empty(),
    {
        let r = PathSet { paths: Vec::new() };
        assert(r@ =~= Seq::empty());
        r
    }

    pub fn len(&self) -> (r: usize)
        ensures
            r == self@.len(),
    {
        self.paths.len()
    }

    pub fn is_empty(&self) -> (r: bool)
        ensures
            r == (self@.len() == 0),
    {
        self.paths.len() == 0
    }

    /// Whether the set holds the path.
    pub fn contains(&self, path: &PathBuf) -> (r: bool)
        ensures
            r == holds(self@, path@),
    {
        let mut i: usize = 0;
        while i < self.paths.len()
            invariant
                i <= self.paths@.len(),
                forall|j: int| 0 <= j < i ==> parts(#[trigger] self@[j]) != parts(path@),
            decreases self.paths@.len() - i,
        {
            if self.paths[i].same_as(path) {
                assert(parts(self@[i as int]) == parts(path@));
                return true;
            }
            i += 1;
        }
        false
    }

    /// Adds the path; tells whether it was not there before.
    pub fn insert(&mut self, path: PathBuf) -> (r: bool)
        requires
            old(self).wf(),
        ensures
            final(self).wf(),
            final(self)@ == inserted(old(self)@, path@),
            r == !holds(old(self)@, path@),
    {
        if self.contains(&path) {
            return false;
        }
        let mut k: usize = 0;
        let ghost s = self@;
        assert(s.skip(0) =~= s);
        while k < self.paths.len() && self.paths[k].comes_before(&path)
            invariant
                k <= self.paths@.len(),
                s == self@,
                place(s, path@) == k + place(s.skip(k as int), path@),
            ensures
                k <= self.paths@.len(),
                s == self@,
                place(s, path@) == k + place(s.skip(k as int), path@),
                k < s.len() ==> !path_less(s[k as int], path@),
            decreases self.paths@.len() - k,
        {
            assert(s.skip(k as int).skip(1) =~= s.skip(k + 1));
            k += 1;
        }
        proof {
            lemma_inserted(s, path@);
        }
        let ghost t = path@;
        self.paths.insert(k, path);
        assert(self@ =~= s.insert(k as int, t));
        true
    }

    /// Takes the path out; tells whether it was there.
    pub fn remove(&mut self, path: &PathBuf) -> (r: bool)
        requires
            old(self).wf(),
        ensures
            final(self).wf(),
            final(self)@ == removed(old(self)@, path@),
            r == holds(old(self)@, path@),
    {
        let found = self.contains(path);
        let ghost s = self@;
        let ghost keep = |x: Seq<char>| parts(x) != parts(path@);
        let mut out: Vec<PathBuf> = Vec::new();
        let mut i: usize = 0;
        proof {
            reveal(Seq::filter);
            assert(path_texts(out@) =~= s.take(0).filter(keep));
            lemma_filter_increasing(s, keep);
        }
        while i < self.paths.len()
            invariant
                i <= self.paths@.len(),
                s == self@,
                keep == (|x: Seq<char>| parts(x) != parts(path@)),
                path_texts(out@) == s.take(i as int).filter(keep),
            decreases self.paths@.len() - i,
        {
            proof {
                reveal(Seq::filter);
                assert(s.take(i + 1).drop_last() =~= s.take(i as int));
                assert(s.take(i + 1).last() == s[i as int]);
            }
            let ghost before = out@;
            if !self.paths[i].same_as(path) {
                out.push(self.paths[i].clone());
                assert(path_texts(out@) =~= path_texts(before).push(s[i as int]));
            }
            i += 1;
        }
        assert(s.take(i as int) =~= s);
        self.paths = out;
        found
    }

    /// Takes every path out.
    pub fn clear(&mut self)
        ensures
            final(self).wf(),
            final(self)@ == Seq::<Seq<char>>::empty(),
    {
        self.paths.clear();
        assert(self@ =~= Seq::empty());
    }
}

} // verus!

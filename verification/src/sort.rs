//! Stable sorting.
use vstd::prelude::*;
use vstd::seq_lib::*;

verus! {

/// Whether `lt` is a strict order in which being incomparable is transitive,
/// as when values are compared by a key.
pub open spec fn strict_weak<A>(lt: spec_fn(A, A) -> bool) -> bool {
    &&& forall|x: A| !#[trigger] lt(x, x)
    &&& forall|x: A, y: A, z: A| #[trigger] lt(x, y) && #[trigger] lt(y, z) ==> lt(x, z)
    &&& forall|x: A, y: A, z: A|
        !#[trigger] lt(x, y) && !#[trigger] lt(y, z) ==> !lt(x, z)
}

/// Whether neither of two values comes before the other.
pub open spec fn tied<A>(lt: spec_fn(A, A) -> bool, x: A, y: A) -> bool {
    !lt(x, y) && !lt(y, x)
}

/// The number of values at the start of `s` that `x` goes behind.
pub open spec fn place<A>(lt: spec_fn(A, A) -> bool, s: Seq<A>, x: A) -> nat
    decreases s.len(),
{
    if s.len() > 0 && !lt(x, s[0]) {
        1 + place(lt, s.skip(1), x)
    } else {
        0
    }
}

/// `s` in order; values that are tied keep the order that they have in `s`.
pub open spec fn stable_sort<A>(lt: spec_fn(A, A) -> bool, s: Seq<A>) -> Seq<A>
    decreases s.len(),
{
    if s.len() == 0 {
        Seq::empty()
    } else {
        let p = stable_sort(lt, s.drop_last());
        p.insert(place(lt, p, s.last()) as int, s.last())
    }
}

/// Whether no value comes behind one that it goes before.
pub open spec fn in_order<A>(lt: spec_fn(A, A) -> bool, s: Seq<A>) -> bool {
    forall|i: int, j: int| 0 <= i < j < s.len() ==> !lt(#[trigger] s[j], #[trigger] s[i])
}

/// What [`place`] gives: `x` goes behind everything before that place, and
/// before what stands there.
pub proof fn lemma_place<A>(lt: spec_fn(A, A) -> bool, s: Seq<A>, x: A)
    ensures
        place(lt, s, x) <= s.len(),
        forall|i: int| 0 <= i < place(lt, s, x) ==> !lt(x, #[trigger] s[i]),
        place(lt, s, x) < s.len() ==> lt(x, s[place(lt, s, x) as int]),
    decreases s.len(),
{
    if s.len() > 0 && !lt(x, s[0]) {
        lemma_place(lt, s.skip(1), x);
        assert forall|i: int| 0 <= i < place(lt, s, x) implies !lt(x, #[trigger] s[i]) by {
            if i > 0 {
                assert(!lt(x, s.skip(1)[i - 1]));
            }
        }
    }
}

/// Sorting orders the values and neither adds nor drops one.
pub proof fn lemma_stable_sort<A>(lt: spec_fn(A, A) -> bool, s: Seq<A>)
    requires
        strict_weak(lt),
    ensures
        stable_sort(lt, s).len() == s.len(),
        stable_sort(lt, s).to_multiset() == s.to_multiset(),
        in_order(lt, stable_sort(lt, s)),
    decreases s.len(),
{
    if s.len() > 0 {
        let before = s.drop_last();
        let x = s.last();
        lemma_stable_sort(lt, before);
        let p = stable_sort(lt, before);
        lemma_place(lt, p, x);
        let k = place(lt, p, x) as int;
        let r = p.insert(k, x);
        assert(s =~= before.push(x));
        to_multiset_build(before, x);
        to_multiset_insert(p, k, x);
        assert forall|i: int, j: int| 0 <= i < j < r.len() implies !lt(
            #[trigger] r[j],
            #[trigger] r[i],
        ) by {
            if j == k {
                lemma_behind_place(lt, p, x, i);
            } else if i == k {
                lemma_before_rest(lt, p, x, j - 1);
            } else {
                let i1 = if i < k {
                    i
                } else {
                    i - 1
                };
                let j1 = if j < k {
                    j
                } else {
                    j - 1
                };
                assert(r[i] == p[i1] && r[j] == p[j1]);
            }
        }
    } else {
        assert(stable_sort(lt, s) =~= s);
    }
}

/// `x` does not come before what stands before its place.
proof fn lemma_behind_place<A>(lt: spec_fn(A, A) -> bool, p: Seq<A>, x: A, i: int)
    requires
        0 <= i < place(lt, p, x),
    ensures
        i < p.len(),
        !lt(x, p[i]),
{
    lemma_place(lt, p, x);
}

/// What stands at the place of `x` or behind it comes behind `x`.
proof fn lemma_before_rest<A>(lt: spec_fn(A, A) -> bool, p: Seq<A>, x: A, j: int)
    requires
        strict_weak(lt),
        in_order(lt, p),
        place(lt, p, x) <= j < p.len(),
    ensures
        lt(x, p[j]),
        !lt(p[j], x),
{
    lemma_place(lt, p, x);
    let k = place(lt, p, x) as int;
    assert(lt(x, p[k]));
    if j > k && !lt(x, p[j]) {
        assert(!lt(p[j], p[k]));
        assert(!lt(x, p[k]));
    }
    if lt(p[j], x) {
        assert(lt(x, x));
    }
}

/// Values that are tied with `c` stand in the same order before and after
/// sorting.
pub proof fn law_stable_sort<A>(lt: spec_fn(A, A) -> bool, s: Seq<A>, c: A)
    requires
        strict_weak(lt),
    ensures
        stable_sort(lt, s).filter(|y: A| tied(lt, c, y)) == s.filter(|y: A| tied(lt, c, y)),
    decreases s.len(),
{
    let same = |y: A| tied(lt, c, y);
    if s.len() > 0 {
        let before = s.drop_last();
        let x = s.last();
        law_stable_sort(lt, before, c);
        lemma_stable_sort(lt, before);
        let p = stable_sort(lt, before);
        lemma_place(lt, p, x);
        let k = place(lt, p, x) as int;
        let (a, b) = (p.take(k), p.skip(k));
        assert(p =~= a + b);
        assert(p.insert(k, x) =~= a.push(x) + b);
        Seq::filter_distributes_over_add(a, b, same);
        Seq::filter_distributes_over_add(a.push(x), b, same);
        assert(s =~= before.push(x));
        before.lemma_filter_push(x, same);
        a.lemma_filter_push(x, same);
        if same(x) {
            assert(b.filter(same) =~= Seq::empty()) by {
                assert forall|j: int| 0 <= j < b.len() implies !same(#[trigger] b[j]) by {
                    lemma_before_rest(lt, p, x, k + j);
                    if !lt(c, b[j]) {
                        assert(!lt(x, c));
                        assert(!lt(x, b[j]));
                    }
                }
                b.lemma_all_neg_filter_empty(same);
            }
            assert(a.filter(same) + Seq::empty() =~= a.filter(same));
            assert(a.push(x).filter(same) + Seq::empty() =~= a.filter(same).push(x));
        }
    } else {
        assert(stable_sort(lt, s) =~= s);
    }
}

} // verus!

//! Lexicographic order on sequences.
use vstd::prelude::*;

verus! {

/// Whether `lt` is a strict total order.
pub open spec fn strict_total<A>(lt: spec_fn(A, A) -> bool) -> bool {
    &&& forall|x: A| !#[trigger] lt(x, x)
    &&& forall|x: A, y: A, z: A| #[trigger] lt(x, y) && #[trigger] lt(y, z) ==> lt(x, z)
    &&& forall|x: A, y: A| #![trigger lt(x, y)] x != y ==> lt(x, y) || lt(y, x)
}

/// Lexicographic comparison: the first difference decides, and a proper
/// prefix comes before what it is a prefix of.
pub open spec fn lex<A>(lt: spec_fn(A, A) -> bool, a: Seq<A>, b: Seq<A>) -> bool
    decreases a.len(),
{
    if b.len() == 0 {
        false
    } else if a.len() == 0 {
        true
    } else if a[0] == b[0] {
        lex(lt, a.skip(1), b.skip(1))
    } else {
        lt(a[0], b[0])
    }
}

/// Nothing comes before itself.
pub proof fn lemma_lex_irreflexive<A>(lt: spec_fn(A, A) -> bool, a: Seq<A>)
    ensures
        !lex(lt, a, a),
    decreases a.len(),
{
    if a.len() > 0 {
        lemma_lex_irreflexive(lt, a.skip(1));
    }
}

/// The order is transitive.
pub proof fn lemma_lex_transitive<A>(
    lt: spec_fn(A, A) -> bool,
    a: Seq<A>,
    b: Seq<A>,
    c: Seq<A>,
)
    requires
        strict_total(lt),
        lex(lt, a, b),
        lex(lt, b, c),
    ensures
        lex(lt, a, c),
    decreases a.len(),
{
    if a.len() > 0 {
        if a[0] == b[0] && b[0] == c[0] {
            lemma_lex_transitive(lt, a.skip(1), b.skip(1), c.skip(1));
        } else if a[0] == c[0] {
            assert(lt(a[0], b[0]) && lt(b[0], a[0]));
            assert(lt(a[0], a[0]));
        } else if a[0] != b[0] && b[0] != c[0] {
            assert(lt(a[0], b[0]) && lt(b[0], c[0]));
        }
    }
}

/// Two different sequences are comparable.
pub proof fn lemma_lex_total<A>(lt: spec_fn(A, A) -> bool, a: Seq<A>, b: Seq<A>)
    requires
        strict_total(lt),
        a != b,
    ensures
        lex(lt, a, b) || lex(lt, b, a),
    decreases a.len(),
{
    if a.len() == 0 || b.len() == 0 {
        if a.len() == 0 && b.len() == 0 {
            assert(a =~= b);
        }
    } else if a[0] == b[0] {
        if a.skip(1) == b.skip(1) {
            assert(a =~= seq![a[0]] + a.skip(1));
            assert(b =~= seq![b[0]] + b.skip(1));
        }
        lemma_lex_total(lt, a.skip(1), b.skip(1));
    } else {
        assert(lt(a[0], b[0]) || lt(b[0], a[0]));
    }
}

/// The order has no cycle of two.
pub proof fn lemma_lex_asymmetric<A>(lt: spec_fn(A, A) -> bool, a: Seq<A>, b: Seq<A>)
    requires
        strict_total(lt),
        lex(lt, a, b),
    ensures
        !lex(lt, b, a),
        a != b,
{
    lemma_lex_irreflexive(lt, a);
    if lex(lt, b, a) {
        lemma_lex_transitive(lt, a, b, a);
    }
}

/// A proper prefix comes before its extensions.
pub proof fn lemma_lex_prefix<A>(lt: spec_fn(A, A) -> bool, a: Seq<A>, b: Seq<A>)
    requires
        a.is_prefix_of(b),
        a.len() < b.len(),
    ensures
        lex(lt, a, b),
    decreases a.len(),
{
    if a.len() > 0 {
        assert(a[0] == b[0]);
        assert forall|i: int| 0 <= i < a.skip(1).len() implies a.skip(1)[i] == b.skip(1)[i] by {
            assert(a[i + 1] == b[i + 1]);
        }
        assert(a.skip(1) =~= b.skip(1).take(a.len() - 1));
        lemma_lex_prefix(lt, a.skip(1), b.skip(1));
    }
}

/// A common prefix does not take part in a comparison.
pub proof fn lemma_lex_skip<A>(lt: spec_fn(A, A) -> bool, a: Seq<A>, b: Seq<A>, k: nat)
    requires
        k <= a.len(),
        k <= b.len(),
        a.take(k as int) == b.take(k as int),
    ensures
        lex(lt, a, b) == lex(lt, a.skip(k as int), b.skip(k as int)),
    decreases k,
{
    if k == 0 {
        assert(a.skip(0) =~= a);
        assert(b.skip(0) =~= b);
    } else {
        assert(a[0] == a.take(k as int)[0]);
        assert(b[0] == b.take(k as int)[0]);
        let a1 = a.skip(1);
        let b1 = b.skip(1);
        assert(a1.take(k - 1) =~= b1.take(k - 1)) by {
            assert forall|i: int| 0 <= i < k - 1 implies a1[i] == b1[i] by {
                assert(a.take(k as int)[i + 1] == a[i + 1]);
                assert(b.take(k as int)[i + 1] == b[i + 1]);
            }
        }
        lemma_lex_skip(lt, a1, b1, (k - 1) as nat);
        assert(a1.skip(k - 1) =~= a.skip(k as int));
        assert(b1.skip(k - 1) =~= b.skip(k as int));
    }
}

} // verus!

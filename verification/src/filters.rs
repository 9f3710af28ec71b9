//! Facts about filtering a sequence.

use vstd::prelude::*;

verus! {

/// Where `p` holds exactly on the indices from `a` up to `b`, filtering by `p`
/// cuts that range out.
pub proof fn lemma_filter_band<A>(s: Seq<A>, p: spec_fn(A) -> bool, a: int, b: int)
    requires
        0 <= a <= b <= s.len(),
        forall|i: int| 0 <= i < s.len() ==> (p(#[trigger] s[i]) <==> a <= i < b),
    ensures
        s.filter(p) == s.subrange(a, b),
    decreases s.len(),
{
    reveal(Seq::filter);
    if s.len() == 0 {
        assert(s.filter(p) =~= s.subrange(a, b));
    } else {
        let t = s.drop_last();
        let n = s.len() - 1;
        let a2 = if a <= n { a } else { n };
        let b2 = if b <= n { b } else { n };
        assert forall|i: int| 0 <= i < t.len() implies (p(#[trigger] t[i]) <==> a2 <= i < b2) by {
            assert(t[i] == s[i]);
        }
        lemma_filter_band(t, p, a2, b2);
        if p(s.last()) {
            assert(a <= n < b);
            assert(s.filter(p) == t.filter(p).push(s.last()));
            assert(t.subrange(a2, b2).push(s.last()) =~= s.subrange(a, b));
        } else {
            assert(s.filter(p) == t.filter(p));
            assert(t.subrange(a2, b2) =~= s.subrange(a, b));
        }
    }
}

/// Filters by predicates that agree on every element of `s` are equal.
pub proof fn lemma_filter_agree<A>(s: Seq<A>, p: spec_fn(A) -> bool, q: spec_fn(A) -> bool)
    requires
        forall|i: int| 0 <= i < s.len() ==> p(#[trigger] s[i]) == q(s[i]),
    ensures
        s.filter(p) == s.filter(q),
    decreases s.len(),
{
    reveal(Seq::filter);
    if s.len() > 0 {
        let t = s.drop_last();
        assert forall|i: int| 0 <= i < t.len() implies p(#[trigger] t[i]) == q(t[i]) by {
            assert(t[i] == s[i]);
        }
        lemma_filter_agree(t, p, q);
        assert(s.last() == s[s.len() - 1]);
    }
}

} // verus!

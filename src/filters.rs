use vstd::prelude::*;

verus! {

/// Filtering keeps everything when every element passes.
pub proof fn lemma_filter_keep_all<A>(s: Seq<A>, p: spec_fn(A) -> bool)
    requires
        forall|i: int| 0 <= i < s.len() ==> p(#[trigger] s[i]),
    ensures
        s.filter(p) == s,
    decreases s.len(),
{
    reveal(Seq::filter);
    if s.len() > 0 {
        lemma_filter_keep_all(s.drop_last(), p);
        assert(s.drop_last().push(s.last()) =~= s);
    }
}

/// Filtering keeps nothing when no element passes.
pub proof fn lemma_filter_keep_none<A>(s: Seq<A>, p: spec_fn(A) -> bool)
    requires
        forall|i: int| 0 <= i < s.len() ==> !p(#[trigger] s[i]),
    ensures
        s.filter(p) == Seq::<A>::empty(),
    decreases s.len(),
{
    reveal(Seq::filter);
    if s.len() > 0 {
        lemma_filter_keep_none(s.drop_last(), p);
    }
}

/// Two sequences of one length whose elements pass alike, and agree where
/// they pass, filter to the same sequence.
pub proof fn lemma_filter_same<A>(a: Seq<A>, b: Seq<A>, p: spec_fn(A) -> bool)
    requires
        a.len() == b.len(),
        forall|i: int| 0 <= i < a.len() ==> p(#[trigger] a[i]) == p(b[i]),
        forall|i: int| 0 <= i < a.len() && p(#[trigger] a[i]) ==> a[i] == b[i],
    ensures
        a.filter(p) == b.filter(p),
    decreases a.len(),
{
    reveal(Seq::filter);
    if a.len() > 0 {
        lemma_filter_same(a.drop_last(), b.drop_last(), p);
        assert(p(a[a.len() - 1]) == p(b[b.len() - 1]));
    }
}

} // verus!

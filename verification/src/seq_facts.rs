use vstd::prelude::*;

verus! {

/// Mapping commutes with removing one position.
pub proof fn lemma_map_values_remove<A, B>(s: Seq<A>, f: spec_fn(A) -> B, k: int)
    requires
        0 <= k < s.len(),
    ensures
        s.remove(k).map_values(f) == s.map_values(f).remove(k),
{
    assert(s.remove(k).map_values(f) =~= s.map_values(f).remove(k));
}

/// Mapping commutes with appending one element.
pub proof fn lemma_map_values_push<A, B>(s: Seq<A>, f: spec_fn(A) -> B, x: A)
    ensures
        s.push(x).map_values(f) == s.map_values(f).push(f(x)),
{
    assert(s.push(x).map_values(f) =~= s.map_values(f).push(f(x)));
}

} // verus!

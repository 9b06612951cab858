use rand::seq::SliceRandom;
use vstd::pervasive::cloned;
use vstd::prelude::*;

verus! {

/// `p` was obtained by cloning one of the elements of `s`.
pub open spec fn clone_of_some_element<T: Clone>(s: Seq<T>, p: T) -> bool {
    exists|i: int| 0 <= i < s.len() && cloned::<T>(#[trigger] s[i], p)
}

/// Relies on rand's SliceRandom::choose with thread_rng: a nonempty slice
/// yields one of its elements, which one depending only on the generator.
/// Nothing can be promised about the choice beyond membership; the chosen
/// element is handed back as a clone.
#[verifier::external_body]
pub(crate) fn pick_one<T: Clone>(candidates: &Vec<T>) -> (p: T)
    requires
        candidates@.len() > 0,
    ensures
        clone_of_some_element(candidates@, p),
{
    candidates.choose(&mut rand::thread_rng()).unwrap().clone()
}

} // verus!

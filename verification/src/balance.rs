use vstd::prelude::*;

use crate::tally::{
    count_val, lemma_count_disjoint, lemma_count_not_all, lemma_count_remove,
    lemma_count_two_covers,
};
use vstd::arithmetic::div_mod::{
    lemma_add_mod_noop, lemma_mod_bound, lemma_mod_multiples_vanish, lemma_small_mod,
};

verus! {

/// Every group fills at most half of `gs`: the pigeonhole precondition for
/// arranging `gs` in a cycle with no two adjacent equal groups.
pub open spec fn feasible(gs: Seq<u16>) -> bool {
    forall|g: u16| 2 * #[trigger] count_val(gs, g) <= gs.len()
}

/// The path builder's running invariant over the remaining pool `gs` after
/// a member of `prev` was placed: `prev` fills at most half of the pool,
/// and every other group at most half of one more than the pool.
pub open spec fn balanced(gs: Seq<u16>, prev: u16) -> bool {
    &&& 2 * count_val(gs, prev) <= gs.len()
    &&& forall|q: u16| q != prev ==> 2 * #[trigger] count_val(gs, q) <= gs.len() + 1
}

/// A feasible pool is balanced against any starting value, the sentinel
/// included.
pub proof fn lemma_balanced_init(gs: Seq<u16>, prev: u16)
    requires
        feasible(gs),
    ensures
        balanced(gs, prev),
{
}

/// A nonempty balanced pool always offers a pick outside the previous group.
pub proof fn lemma_balanced_pick_exists(gs: Seq<u16>, prev: u16)
    requires
        balanced(gs, prev),
        gs.len() > 0,
    ensures
        count_val(gs, prev) < gs.len(),
        exists|i: int| 0 <= i < gs.len() && gs[i] != prev,
{
    lemma_count_not_all(gs, prev);
}

/// Removing a legal pick keeps the pool balanced. The pick is legal when it
/// avoids the previous group and, whenever some group outside the previous
/// one fills more than half the pool, it comes from a greatest such group
/// (whose size is `m`).
pub proof fn lemma_balanced_step(gs: Seq<u16>, prev: u16, k: int, m: nat)
    requires
        balanced(gs, prev),
        0 <= k < gs.len(),
        gs[k] != prev,
        forall|q: u16| q != prev ==> #[trigger] count_val(gs, q) <= m,
        2 * m > gs.len() ==> count_val(gs, gs[k]) == m,
    ensures
        balanced(gs.remove(k), gs[k]),
{
    let g = gs[k];
    let gs2 = gs.remove(k);
    lemma_count_remove(gs, k, g);
    assert(count_val(gs2, g) == count_val(gs, g) - 1);
    assert(2 * count_val(gs2, g) <= gs2.len());
    assert forall|r: u16| r != g implies 2 * #[trigger] count_val(gs2, r) <= gs2.len() + 1 by {
        lemma_count_remove(gs, k, r);
        assert(count_val(gs2, r) == count_val(gs, r));
        if r != prev {
            if 2 * m > gs.len() {
                lemma_count_disjoint(gs, r, g);
            }
        }
    }
}

/// Every entry of `gs` is one of the two different values `a` and `b`.
pub open spec fn covered_by(gs: Seq<u16>, a: u16, b: u16) -> bool {
    a != b && (forall|i: int| 0 <= i < gs.len() ==> gs[i] == a || gs[i] == b)
}

/// Exactly two group values occur among `gs`.
pub open spec fn two_group_split(gs: Seq<u16>) -> bool {
    exists|a: u16, b: u16| covered_by(gs, a, b)
}

/// A sequence over two values whose neighbours always differ alternates
/// strictly: a position holds the first value exactly when its index is
/// even.
pub proof fn lemma_two_value_alternation(gs: Seq<u16>, a: u16, b: u16, i: int)
    requires
        covered_by(gs, a, b),
        forall|k: int| 1 <= k < gs.len() ==> (#[trigger] gs[k]) != gs[k - 1],
        0 <= i < gs.len(),
    ensures
        (gs[i] == gs[0]) <==> (i % 2 == 0),
    decreases i,
{
    if i == 0 {
        assert(0int % 2 == 0);
    } else {
        lemma_two_value_alternation(gs, a, b, i - 1);
        assert(gs[i] != gs[i - 1]);
        assert(gs[i] == a || gs[i] == b);
        assert(gs[i - 1] == a || gs[i - 1] == b);
        assert(gs[0] == a || gs[0] == b);
        lemma_small_mod(1nat, 2nat);
        lemma_add_mod_noop(i - 1, 1, 2);
        lemma_mod_bound(i - 1, 2);
        if (i - 1) % 2 == 0 {
            lemma_small_mod(1nat, 2nat);
            assert(i % 2 == 1);
        } else {
            lemma_mod_multiples_vanish(1, 0, 2);
            lemma_small_mod(0nat, 2nat);
            assert((1int + 1int) % 2 == 0);
            assert(i % 2 == 0);
        }
    }
}

/// With exactly two groups present, a feasible pool splits into two even
/// halves, so any same-length arrangement over those groups whose
/// neighbours always differ ends on the other group than it began: the
/// wrap-around pair differs.
pub proof fn lemma_two_group_wrap(gs_in: Seq<u16>, gs_out: Seq<u16>, a: u16, b: u16)
    requires
        covered_by(gs_in, a, b),
        feasible(gs_in),
        gs_in.len() > 0,
        gs_out.len() == gs_in.len(),
        covered_by(gs_out, a, b),
        forall|k: int| 1 <= k < gs_out.len() ==> (#[trigger] gs_out[k]) != gs_out[k - 1],
    ensures
        gs_out[0] != gs_out[gs_out.len() - 1],
{
    let n = gs_in.len() as int;
    lemma_count_two_covers(gs_in, a, b);
    assert(2 * count_val(gs_in, a) <= n);
    assert(2 * count_val(gs_in, b) <= n);
    assert(count_val(gs_in, a) == count_val(gs_in, b));
    let c = count_val(gs_in, a) as int;
    assert(n == 2 * c);
    assert(c >= 1);
    lemma_two_value_alternation(gs_out, a, b, n - 1);
    lemma_mod_multiples_vanish(c - 1, 1, 2);
    lemma_small_mod(1nat, 2nat);
    assert(2 * (c - 1) + 1 == n - 1);
    assert((n - 1) % 2 == 1);
    assert(gs_out[n - 1] != gs_out[0]);
}

} // verus!

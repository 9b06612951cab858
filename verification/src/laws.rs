use vstd::arithmetic::div_mod::{
    lemma_add_mod_noop, lemma_mod_bound, lemma_mod_equivalence, lemma_mod_multiples_vanish,
    lemma_small_mod,
};
use vstd::prelude::*;

use crate::gift_circle::{adjacent_groups_differ, circle_links_assigned};
use crate::people::{distinct_names, valid_circle};
use crate::person::PersonV;

verus! {

/// The position of the participant whose name the participant at `i` was
/// assigned to give to; meaningful when names are distinct and every
/// assignment names some participant.
pub open spec fn next_index(s: Seq<PersonV>, i: int) -> int {
    choose|j: int| 0 <= j < s.len() && Some(s[j].name) == s[i].assigned_person_name
}

/// The position reached after following assigned-recipient links `k` times
/// from `start`.
pub open spec fn follow(s: Seq<PersonV>, start: int, k: nat) -> int
    decreases k,
{
    if k == 0 {
        start
    } else {
        next_index(s, follow(s, start, (k - 1) as nat))
    }
}

/// When names are distinct and every assignment names the next
/// participant, the link from position `i` leads to position `(i+1) mod n`.
proof fn lemma_next_index_is_succ(s: Seq<PersonV>, i: int)
    requires
        s.len() > 0,
        distinct_names(s),
        circle_links_assigned(s),
        0 <= i < s.len(),
    ensures
        next_index(s, i) == (i + 1) % (s.len() as int),
{
    reveal(circle_links_assigned);
    let n = s.len() as int;
    let succ = (i + 1) % n;
    lemma_mod_bound(i + 1, n);
    assert(0 <= succ < n);
    assert(s[i].assigned_person_name == Some(s[succ].name));
    let j = next_index(s, i);
    assert(0 <= j < n && Some(s[j].name) == s[i].assigned_person_name);
    assert(s[j].name == s[succ].name);
    if j != succ {
        if j < succ {
            assert(s[j].name != s[succ].name);
        } else {
            assert(s[succ].name != s[j].name);
        }
    }
}

/// In an accepted gift circle the assigned-recipient links form one closed
/// loop over all participants: following the links `k` times from any
/// start lands on position `(start + k) mod n`, so fewer than `n` steps
/// never return to the start, `n` steps always do, and every participant
/// is visited exactly once along the way.
#[verifier::rlimit(100)]
#[verifier::spinoff_prover]
pub proof fn lemma_gift_circle_traversal(s: Seq<PersonV>, start: int, k: nat)
    requires
        s.len() > 0,
        distinct_names(s),
        circle_links_assigned(s),
        0 <= start < s.len(),
    ensures
        follow(s, start, k) == (start + k) % (s.len() as int),
        0 < k < s.len() ==> follow(s, start, k) != start,
        k == s.len() ==> follow(s, start, k) == start,
    decreases k,
{
    let n = s.len() as int;
    if k == 0 {
        lemma_small_mod(start as nat, n as nat);
    } else {
        lemma_gift_circle_traversal(s, start, (k - 1) as nat);
        let i = follow(s, start, (k - 1) as nat);
        assert(0 <= i < n) by {
            lemma_mod_bound(start + k - 1, n);
        }
        lemma_next_index_is_succ(s, i);
        assert(follow(s, start, k) == (i + 1) % n);
        assert((i + 1) % n == (start + k) % n) by {
            if n == 1 {
                lemma_mod_bound(i + 1, n);
                lemma_mod_bound(start + k, n);
            } else {
                lemma_small_mod(1nat, n as nat);
                lemma_add_mod_noop(start + k - 1, 1, n);
                assert(i + 1 == (start + k - 1) % n + 1int % n);
            }
        }
    }
    if 0 < k < s.len() {
        assert((start + k) % n != start) by {
            lemma_small_mod(start as nat, n as nat);
            if (start + k) % n == start {
                lemma_mod_equivalence(start + k, start, n);
                lemma_small_mod(k, n as nat);
                assert(false);
            }
        }
    }
    if k == s.len() {
        assert((start + k) % n == start) by {
            lemma_mod_multiples_vanish(1, start, n);
            lemma_small_mod(start as nat, n as nat);
        }
    }
}

/// Validating a candidate cycle is a pure function of the participants:
/// two verdicts computed from the same sequence are the same, so applying
/// the validator twice gives the result of applying it once.
pub proof fn lemma_validation_idempotent(s: Seq<PersonV>, r1: bool, r2: bool)
    requires
        r1 == valid_circle(s),
        r2 == valid_circle(s),
    ensures
        r1 == r2,
{
}

/// In an accepted grouped circle, nobody gives within their own group: a
/// participant whose name is the recipient assigned at position `i` (the
/// next participant around the circle) belongs to a different group than
/// the participant at `i`.
pub proof fn lemma_recipient_in_other_group(s: Seq<PersonV>, i: int, j: int)
    requires
        s.len() > 0,
        distinct_names(s),
        circle_links_assigned(s),
        adjacent_groups_differ(s),
        0 <= i < s.len(),
        0 <= j < s.len(),
        Some(s[j].name) == s[i].assigned_person_name,
    ensures
        s[j].group_number != s[i].group_number,
{
    let n = s.len() as int;
    let succ = (i + 1) % n;
    lemma_mod_bound(i + 1, n);
    assert(s[i].assigned_person_name == Some(s[succ].name)) by {
        reveal(circle_links_assigned);
    }
    assert(s[j].name == s[succ].name);
    if j != succ {
        if j < succ {
            assert(s[j].name != s[succ].name);
        } else {
            assert(s[succ].name != s[j].name);
        }
    }
    assert(j == succ);
    if i < n - 1 {
        lemma_small_mod((i + 1) as nat, n as nat);
        assert(succ == i + 1);
        assert(s[i].group_number != s[i + 1].group_number);
    } else {
        lemma_mod_multiples_vanish(1, 0, n);
        lemma_small_mod(0nat, n as nat);
        assert(succ == 0);
        assert(s[n - 1].group_number != s[0].group_number);
    }
}

} // verus!

use vstd::prelude::*;

use crate::balance::{
    balanced, covered_by, feasible, lemma_balanced_init, lemma_balanced_pick_exists,
    lemma_balanced_step, lemma_two_group_wrap, two_group_split,
};
use crate::people::{
    all_grouped, distinct_names, group_or_sentinel, groups_of, lemma_groups_of_push,
    lemma_groups_of_remove, lemma_names_of_push, lemma_names_of_remove,
    lemma_same_multiset_same_groups, lemma_stripped_push, lemma_stripped_remove, names_of,
    no_consecutive_groups, no_sentinel_group, prev_group_at, strip_assignment, stripped,
    valid_circle, with_recipient, wrap_groups_differ, People, PeopleCycle,
};
use crate::person::{Person, PersonV};
use crate::pick::pick_one;
use crate::tally::{count_val, lemma_count_push};
use vstd::pervasive::cloned;

verus! {

broadcast use {vstd::multiset::group_multiset_axioms, vstd::seq_lib::group_to_multiset_ensures};

/// Why no gift circle was returned.
#[derive(Clone, Debug, PartialEq, Eq)]
pub enum GiftCircleError {
    /// Fewer than three participants were supplied.
    InsufficientParticipants,
    /// Some display names repeat; the offending names are listed once each.
    DuplicateNames(Vec<String>),
    /// Group mode was requested but a participant lacks a group.
    IncompleteGroupAssignment,
    /// Group mode was requested and no valid cycle can exist for this
    /// distribution of groups.
    InfeasibleGroupDistribution,
    /// No valid cycle was found within the given number of attempts.
    SearchExhausted(u16),
}

/// How many construction attempts `get_gift_circle` makes before giving up.
pub const MAX_ATTEMPTS: u16 = 500;

/// `s` with the first entry equal to `x` removed; unchanged when no entry
/// equals `x`.
pub open spec fn remove_first_equal(s: Seq<PersonV>, x: PersonV) -> Seq<PersonV>
    decreases s.len(),
{
    if s.len() == 0 {
        s
    } else if s.first() == x {
        s.drop_first()
    } else {
        seq![s.first()] + remove_first_equal(s.drop_first(), x)
    }
}

/// When the first entry equal to `x` stands at position `k`, removing it
/// removes exactly that position.
proof fn lemma_remove_first_equal_at(s: Seq<PersonV>, x: PersonV, k: int)
    requires
        0 <= k < s.len(),
        s[k] == x,
        forall|i: int| 0 <= i < k ==> #[trigger] s[i] != x,
    ensures
        remove_first_equal(s, x) == s.remove(k),
    decreases s.len(),
{
    if k == 0 {
        assert(s.first() == x);
        assert(s.drop_first() =~= s.remove(0));
    } else {
        assert(s[0] != x);
        let t = s.drop_first();
        assert(t[k - 1] == s[k]);
        assert forall|i: int| 0 <= i < k - 1 implies #[trigger] t[i] != x by {
            assert(t[i] == s[i + 1]);
        }
        lemma_remove_first_equal_at(t, x, k - 1);
        assert(seq![s.first()] + t.remove(k - 1) =~= s.remove(k));
    }
}

/// Removing a value that never occurs changes nothing.
proof fn lemma_remove_first_equal_absent(s: Seq<PersonV>, x: PersonV)
    requires
        forall|i: int| 0 <= i < s.len() ==> #[trigger] s[i] != x,
    ensures
        remove_first_equal(s, x) == s,
    decreases s.len(),
{
    if s.len() > 0 {
        assert(s[0] != x);
        let t = s.drop_first();
        assert forall|i: int| 0 <= i < t.len() implies #[trigger] t[i] != x by {
            assert(t[i] == s[i + 1]);
        }
        lemma_remove_first_equal_absent(t, x);
        assert(seq![s.first()] + t =~= s);
    }
}

/// Moves `person` from the available list to the path: the first entry
/// equal to `person` leaves `from_people` (none when no entry is equal),
/// and one copy of `person` is appended to `to_people`.
pub fn move_person(from_people: &mut People, to_people: &mut People, person: &Person)
    ensures
        final(from_people).deep_view() == remove_first_equal(
            old(from_people).deep_view(),
            person@,
        ),
        final(to_people).deep_view() == old(to_people).deep_view().push(person@),
        final(to_people)@.len() == old(to_people)@.len() + 1,
{
    let ghost dvo = old(from_people).deep_view();
    let n = from_people.len();
    let mut i: usize = 0;
    while i < n && from_people[i] != *person
        invariant
            from_people@ == old(from_people)@,
            dvo == from_people.deep_view(),
            n == from_people@.len(),
            i <= n,
            forall|j: int| 0 <= j < i ==> #[trigger] dvo[j] != person@,
        decreases n - i,
    {
        i += 1;
    }
    if i < n {
        proof {
            assert(dvo[i as int] == person@);
            lemma_remove_first_equal_at(dvo, person@, i as int);
        }
        from_people.remove(i);
        proof {
            assert(from_people.deep_view() =~= dvo.remove(i as int));
        }
    } else {
        proof {
            lemma_remove_first_equal_absent(dvo, person@);
        }
    }
    let ghost dvt = to_people.deep_view();
    to_people.push(person.clone());
    proof {
        assert(to_people.deep_view() =~= dvt.push(person@));
    }
}

/// No name occurs both among `a` and among `b`.
pub open spec fn names_disjoint(a: Seq<PersonV>, b: Seq<PersonV>) -> bool {
    forall|i: int, j: int|
        0 <= i < a.len() && 0 <= j < b.len() ==> (#[trigger] a[i]).name != (#[trigger] b[j]).name
}

/// What one move from the pool to the path does to the ghost bookkeeping:
/// the pool shrinks by exactly the picked position, and pool and path
/// together keep the same participants and names.
proof fn lemma_move_bookkeeping(
    pool: Seq<PersonV>,
    newpool: Seq<PersonV>,
    path: Seq<PersonV>,
    newpath: Seq<PersonV>,
    x: PersonV,
    j: int,
)
    requires
        0 <= j < pool.len(),
        pool[j] == x,
        distinct_names(pool),
        distinct_names(path),
        names_disjoint(pool, path),
        newpool == remove_first_equal(pool, x),
        newpath == path.push(x),
    ensures
        newpool == pool.remove(j),
        newpool.len() == pool.len() - 1,
        groups_of(newpool) == groups_of(pool).remove(j),
        distinct_names(newpool),
        distinct_names(newpath),
        names_disjoint(newpool, newpath),
        all_grouped(pool) ==> all_grouped(newpool),
        all_grouped(pool) && all_grouped(path) ==> all_grouped(newpath),
        stripped(newpool).to_multiset().add(stripped(newpath).to_multiset()) == stripped(
            pool,
        ).to_multiset().add(stripped(path).to_multiset()),
        names_of(newpool).to_multiset().add(names_of(newpath).to_multiset()) == names_of(
            pool,
        ).to_multiset().add(names_of(path).to_multiset()),
{
    assert forall|i: int| 0 <= i < pool.len() && i != j implies pool[i] != x by {
        if i < j {
            assert(pool[i].name != pool[j].name);
        } else {
            assert(pool[j].name != pool[i].name);
        }
    }
    lemma_remove_first_equal_at(pool, x, j);
    lemma_stripped_remove(pool, j);
    lemma_stripped_push(path, x);
    lemma_names_of_remove(pool, j);
    lemma_names_of_push(path, x);
    lemma_groups_of_remove(pool, j);
    assert(stripped(pool)[j] == strip_assignment(x));
    assert(names_of(pool)[j] == x.name);
    assert(stripped(pool).remove(j).to_multiset() =~= stripped(pool).to_multiset().remove(
        stripped(pool)[j],
    ));
    assert(stripped(newpool) == stripped(pool).remove(j));
    assert(stripped(path).push(strip_assignment(x)).to_multiset() =~= stripped(
        path,
    ).to_multiset().insert(strip_assignment(x)));
    assert(stripped(newpath) == stripped(path).push(strip_assignment(x)));
    assert(stripped(pool).contains(strip_assignment(x)));
    assert(stripped(pool).to_multiset().count(strip_assignment(x)) > 0);
    assert(stripped(newpool).to_multiset().add(stripped(newpath).to_multiset()) =~= stripped(
        pool,
    ).to_multiset().add(stripped(path).to_multiset()));
    assert(names_of(pool).remove(j).to_multiset() =~= names_of(pool).to_multiset().remove(
        names_of(pool)[j],
    ));
    assert(names_of(newpool) == names_of(pool).remove(j));
    assert(names_of(path).push(x.name).to_multiset() =~= names_of(path).to_multiset().insert(
        x.name,
    ));
    assert(names_of(newpath) == names_of(path).push(x.name));
    assert(names_of(pool).contains(x.name));
    assert(names_of(pool).to_multiset().count(x.name) > 0);
    assert(names_of(newpool).to_multiset().add(names_of(newpath).to_multiset()) =~= names_of(
        pool,
    ).to_multiset().add(names_of(path).to_multiset()));
}

/// Builds a path from the pool by repeatedly picking any remaining
/// participant at random; no group logic applies.
fn generate_no_group_path(from_people: &mut People) -> (people_path: People)
    requires
        distinct_names(old(from_people).deep_view()),
    ensures
        final(from_people)@.len() == 0,
        people_path.deep_view().len() == old(from_people).deep_view().len(),
        distinct_names(people_path.deep_view()),
        stripped(people_path.deep_view()).to_multiset() == stripped(
            old(from_people).deep_view(),
        ).to_multiset(),
        names_of(people_path.deep_view()).to_multiset() == names_of(
            old(from_people).deep_view(),
        ).to_multiset(),
{
    let ghost orig = old(from_people).deep_view();
    let mut people_path: People = Vec::new();
    proof {
        assert(stripped(from_people.deep_view()).to_multiset().add(
            stripped(people_path.deep_view()).to_multiset(),
        ) =~= stripped(orig).to_multiset());
        assert(names_of(from_people.deep_view()).to_multiset().add(
            names_of(people_path.deep_view()).to_multiset(),
        ) =~= names_of(orig).to_multiset());
    }
    while from_people.len() != 0
        invariant
            distinct_names(from_people.deep_view()),
            distinct_names(people_path.deep_view()),
            names_disjoint(from_people.deep_view(), people_path.deep_view()),
            from_people@.len() + people_path@.len() == orig.len(),
            stripped(from_people.deep_view()).to_multiset().add(
                stripped(people_path.deep_view()).to_multiset(),
            ) == stripped(orig).to_multiset(),
            names_of(from_people.deep_view()).to_multiset().add(
                names_of(people_path.deep_view()).to_multiset(),
            ) == names_of(orig).to_multiset(),
        decreases from_people@.len(),
    {
        let ghost pool = from_people.deep_view();
        let ghost path = people_path.deep_view();
        let choice = pick_one(from_people);
        let ghost j = choose|i: int|
            0 <= i < from_people@.len() && cloned::<Person>(#[trigger] from_people@[i], choice);
        proof {
            assert(choice == from_people@[j]);
            assert(pool[j] == choice@);
        }
        move_person(from_people, &mut people_path, &choice);
        proof {
            lemma_move_bookkeeping(
                pool,
                from_people.deep_view(),
                path,
                people_path.deep_view(),
                choice@,
                j,
            );
        }
    }
    proof {
        assert(stripped(people_path.deep_view()).to_multiset() =~= stripped(orig).to_multiset());
        assert(names_of(people_path.deep_view()).to_multiset() =~= names_of(orig).to_multiset());
    }
    people_path
}

/// Builds a path from the pool under the group rule: every pick avoids the
/// previous group, and whenever some group outside the previous one fills
/// more than half the remaining pool, the pick is forced into a largest
/// such group, so that completion stays possible.
#[verifier::rlimit(100)]
fn generate_group_path(from_people: &mut People) -> (people_path: People)
    requires
        all_grouped(old(from_people).deep_view()),
        distinct_names(old(from_people).deep_view()),
        feasible(groups_of(old(from_people).deep_view())),
        old(from_people)@.len() <= u16::MAX,
    ensures
        final(from_people)@.len() == 0,
        people_path.deep_view().len() == old(from_people).deep_view().len(),
        all_grouped(people_path.deep_view()),
        distinct_names(people_path.deep_view()),
        no_consecutive_groups(people_path.deep_view()),
        stripped(people_path.deep_view()).to_multiset() == stripped(
            old(from_people).deep_view(),
        ).to_multiset(),
        names_of(people_path.deep_view()).to_multiset() == names_of(
            old(from_people).deep_view(),
        ).to_multiset(),
{
    let ghost orig = old(from_people).deep_view();
    let mut people_path: People = Vec::new();
    let mut previous_group: u16 = 0;
    proof {
        lemma_balanced_init(groups_of(orig), 0u16);
        assert(stripped(from_people.deep_view()).to_multiset().add(
            stripped(people_path.deep_view()).to_multiset(),
        ) =~= stripped(orig).to_multiset());
        assert(names_of(from_people.deep_view()).to_multiset().add(
            names_of(people_path.deep_view()).to_multiset(),
        ) =~= names_of(orig).to_multiset());
    }
    while from_people.len() != 0
        invariant
            all_grouped(from_people.deep_view()),
            all_grouped(people_path.deep_view()),
            distinct_names(from_people.deep_view()),
            distinct_names(people_path.deep_view()),
            names_disjoint(from_people.deep_view(), people_path.deep_view()),
            from_people@.len() + people_path@.len() == orig.len(),
            orig.len() <= u16::MAX,
            balanced(groups_of(from_people.deep_view()), previous_group),
            previous_group == (if people_path@.len() == 0 {
                0u16
            } else {
                group_or_sentinel(people_path.deep_view().last())
            }),
            no_consecutive_groups(people_path.deep_view()),
            stripped(from_people.deep_view()).to_multiset().add(
                stripped(people_path.deep_view()).to_multiset(),
            ) == stripped(orig).to_multiset(),
            names_of(from_people.deep_view()).to_multiset().add(
                names_of(people_path.deep_view()).to_multiset(),
            ) == names_of(orig).to_multiset(),
        decreases from_people@.len(),
    {
        let ghost pool = from_people.deep_view();
        let ghost gs = groups_of(pool);
        proof {
            assert(gs.len() == pool.len());
            lemma_balanced_pick_exists(gs, previous_group);
            let wi = choose|i: int| 0 <= i < gs.len() && gs[i] != previous_group;
            assert(gs[wi] == group_or_sentinel(pool[wi]));
            assert(from_people.people() == pool);
            assert(group_or_sentinel(from_people.people()[wi]) != previous_group);
        }
        let largest_np = from_people.largest_non_prev_group(previous_group);
        let ghost m = largest_np.size as nat;
        proof {
            assert(groups_of(from_people.people()) == gs);
            assert(count_val(gs, largest_np.number) == m);
            assert(largest_np.number != previous_group);
            assert(forall|q: u16|
                q != previous_group ==> #[trigger] count_val(gs, q) <= m);
        }
        let mut candidates: People = Vec::new();
        if (largest_np.size as usize) * 2 > from_people.len() {
            let mut i: usize = 0;
            while i < from_people.len()
                invariant
                    pool == from_people.deep_view(),
                    from_people@.len() == pool.len(),
                    all_grouped(pool),
                    i <= pool.len(),
                    candidates@.len() == count_val(
                        groups_of(pool.take(i as int)),
                        largest_np.number,
                    ),
                    forall|c: int|
                        0 <= c < candidates@.len() ==> exists|t: int|
                            0 <= t < pool.len() && #[trigger] candidates.deep_view()[c]
                                == pool[t],
                    forall|c: int|
                        0 <= c < candidates@.len() ==> group_or_sentinel(
                            #[trigger] candidates.deep_view()[c],
                        ) == largest_np.number,
                decreases pool.len() - i,
            {
                proof {
                    assert(pool[i as int].group_number is Some);
                }
                let g = from_people[i].group_number.unwrap();
                proof {
                    assert(pool.take(i as int + 1) =~= pool.take(i as int).push(pool[i as int]));
                    lemma_groups_of_push(pool.take(i as int), pool[i as int]);
                    lemma_count_push(
                        groups_of(pool.take(i as int)),
                        largest_np.number,
                        group_or_sentinel(pool[i as int]),
                    );
                }
                if g == largest_np.number {
                    let ghost oldc = candidates.deep_view();
                    candidates.push(from_people[i].clone());
                    proof {
                        assert(candidates.deep_view() =~= oldc.push(pool[i as int]));
                        assert(candidates.deep_view()[candidates@.len() - 1] == pool[i as int]);
                    }
                }
                i += 1;
            }
            proof {
                assert(pool.take(pool.len() as int) =~= pool);
                assert(candidates@.len() == count_val(gs, largest_np.number));
            }
        } else {
            let mut i: usize = 0;
            while i < from_people.len()
                invariant
                    pool == from_people.deep_view(),
                    from_people@.len() == pool.len(),
                    all_grouped(pool),
                    i <= pool.len(),
                    candidates@.len() + count_val(groups_of(pool.take(i as int)), previous_group)
                        == i,
                    forall|c: int|
                        0 <= c < candidates@.len() ==> exists|t: int|
                            0 <= t < pool.len() && #[trigger] candidates.deep_view()[c]
                                == pool[t],
                    forall|c: int|
                        0 <= c < candidates@.len() ==> group_or_sentinel(
                            #[trigger] candidates.deep_view()[c],
                        ) != previous_group,
                decreases pool.len() - i,
            {
                proof {
                    assert(pool[i as int].group_number is Some);
                }
                let g = from_people[i].group_number.unwrap();
                proof {
                    assert(pool.take(i as int + 1) =~= pool.take(i as int).push(pool[i as int]));
                    lemma_groups_of_push(pool.take(i as int), pool[i as int]);
                    lemma_count_push(
                        groups_of(pool.take(i as int)),
                        previous_group,
                        group_or_sentinel(pool[i as int]),
                    );
                }
                if g != previous_group {
                    let ghost oldc = candidates.deep_view();
                    candidates.push(from_people[i].clone());
                    proof {
                        assert(candidates.deep_view() =~= oldc.push(pool[i as int]));
                        assert(candidates.deep_view()[candidates@.len() - 1] == pool[i as int]);
                    }
                }
                i += 1;
            }
            proof {
                assert(pool.take(pool.len() as int) =~= pool);
                assert(candidates@.len() + count_val(gs, previous_group) == pool.len());
                assert(count_val(gs, previous_group) < pool.len());
            }
        }
        let choice = pick_one(&candidates);
        let ghost ci = choose|i: int|
            0 <= i < candidates@.len() && cloned::<Person>(#[trigger] candidates@[i], choice);
        let ghost j = choose|t: int| 0 <= t < pool.len() && pool[t] == choice@;
        proof {
            assert(choice == candidates@[ci]);
            assert(choice@ == candidates.deep_view()[ci]);
            let t0 = choose|t: int|
                0 <= t < pool.len() && #[trigger] candidates.deep_view()[ci] == pool[t];
            assert(pool[t0] == choice@);
            assert(0 <= j < pool.len() && pool[j] == choice@);
            assert(group_or_sentinel(choice@) != previous_group);
        }
        let ghost path = people_path.deep_view();
        move_person(from_people, &mut people_path, &choice);
        let ghost newpool = from_people.deep_view();
        let ghost newpath = people_path.deep_view();
        proof {
            lemma_move_bookkeeping(pool, newpool, path, newpath, choice@, j);
            assert(gs[j] == group_or_sentinel(pool[j]));
            assert(gs[j] != previous_group);
            if 2 * m > gs.len() {
                assert(group_or_sentinel(choice@) == largest_np.number);
                assert(count_val(gs, gs[j]) == m);
            }
            lemma_balanced_step(gs, previous_group, j, m);
            assert(balanced(groups_of(newpool), gs[j]));
            assert forall|i: int|
                0 <= i < newpath.len() implies #[trigger] group_or_sentinel(newpath[i])
                != prev_group_at(newpath, i) by {
                if i < path.len() {
                    assert(newpath[i] == path[i]);
                    if i > 0 {
                        assert(newpath[i - 1] == path[i - 1]);
                    }
                    assert(group_or_sentinel(path[i]) != prev_group_at(path, i));
                } else {
                    assert(newpath[i] == choice@);
                    if i > 0 {
                        assert(newpath[i - 1] == path[i - 1]);
                    }
                }
            }
        }
        previous_group = choice.group_number.unwrap();
        proof {
            assert(previous_group == group_or_sentinel(choice@));
            assert(newpath.last() == choice@);
            assert(balanced(groups_of(from_people.deep_view()), previous_group));
        }
    }
    proof {
        assert(stripped(people_path.deep_view()).to_multiset() =~= stripped(orig).to_multiset());
        assert(names_of(people_path.deep_view()).to_multiset() =~= names_of(orig).to_multiset());
    }
    people_path
}

/// Every participant's assigned recipient is the name of the next
/// participant in the sequence, the last wrapping around to the first.
#[verifier::opaque]
pub open spec fn circle_links_assigned(s: Seq<PersonV>) -> bool {
    forall|i: int|
        0 <= i < s.len() ==> (#[trigger] s[i]).assigned_person_name == Some(
            s[(i + 1) % (s.len() as int)].name,
        )
}

/// No two neighbouring participants share a group, the wrap-around pair
/// included.
pub open spec fn adjacent_groups_differ(s: Seq<PersonV>) -> bool {
    &&& forall|i: int|
        0 <= i < s.len() - 1 ==> (#[trigger] s[i]).group_number != s[i + 1].group_number
    &&& s.len() > 0 ==> s[s.len() - 1].group_number != s[0].group_number
}

/// A built path whose participants come from a pool without the sentinel
/// as a real group is itself free of it.
proof fn lemma_attempt_no_sentinel(inp: Seq<PersonV>, out: Seq<PersonV>)
    requires
        no_sentinel_group(inp),
        stripped(out).to_multiset() == stripped(inp).to_multiset(),
    ensures
        no_sentinel_group(out),
{
    lemma_same_multiset_same_groups(out, inp);
    assert forall|i: int|
        0 <= i < out.len() implies (#[trigger] out[i]).group_number != Some(0u16) by {
        let j = choose|j: int|
            0 <= j < inp.len() && (#[trigger] out[i]).group_number == inp[j].group_number;
        assert(inp[j].group_number != Some(0u16));
    }
}

/// When exactly two groups occur in a feasible pool, every full
/// arrangement the builder produces is a valid circle: the interior never
/// repeats a group, and the even two-way split forces the wrap-around
/// pair to differ.
proof fn lemma_two_group_attempt_valid(inp: Seq<PersonV>, out: Seq<PersonV>)
    requires
        feasible(groups_of(inp)),
        two_group_split(groups_of(inp)),
        inp.len() > 0,
        out.len() == inp.len(),
        no_consecutive_groups(out),
        stripped(out).to_multiset() == stripped(inp).to_multiset(),
    ensures
        valid_circle(out),
{
    let gs_in = groups_of(inp);
    let gs_out = groups_of(out);
    let (a, b) = choose|a: u16, b: u16| covered_by(gs_in, a, b);
    lemma_same_multiset_same_groups(out, inp);
    assert forall|i: int|
        0 <= i < gs_out.len() implies gs_out[i] == a || gs_out[i] == b by {
        let j = choose|j: int|
            0 <= j < inp.len() && (#[trigger] out[i]).group_number == inp[j].group_number;
        assert(gs_out[i] == group_or_sentinel(out[i]));
        assert(group_or_sentinel(out[i]) == group_or_sentinel(inp[j]));
        assert(gs_in[j] == group_or_sentinel(inp[j]));
    }
    assert forall|k: int|
        1 <= k < gs_out.len() implies (#[trigger] gs_out[k]) != gs_out[k - 1] by {
        assert(group_or_sentinel(out[k]) != prev_group_at(out, k));
        assert(gs_out[k] == group_or_sentinel(out[k]));
        assert(gs_out[k - 1] == group_or_sentinel(out[k - 1]));
    }
    lemma_two_group_wrap(gs_in, gs_out, a, b);
    assert(group_or_sentinel(out[0]) == gs_out[0]);
    assert(group_or_sentinel(out[out.len() - 1]) == gs_out[gs_out.len() - 1]);
    assert(wrap_groups_differ(out));
}

/// Validates the participants, builds candidate cycles up to MAX_ATTEMPTS
/// times, and returns an accepted cycle with every recipient assigned, or
/// the error that stopped the search.
pub fn get_gift_circle(from_people: People, use_groups: bool) -> (r: Result<
    People,
    GiftCircleError,
>)
    requires
        from_people@.len() <= u16::MAX,
        use_groups ==> no_sentinel_group(from_people.deep_view()),
    ensures
        (r matches Err(GiftCircleError::InsufficientParticipants)) <==> from_people.deep_view().len()
            <= 2,
        (r matches Err(GiftCircleError::DuplicateNames(d)) ==> from_people.deep_view().len() > 2
            && !distinct_names(from_people.deep_view())),
        (r matches Err(GiftCircleError::DuplicateNames(d)) ==> forall|i: int|
            0 <= i < d@.len() ==> count_val(
                names_of(from_people.deep_view()),
                (#[trigger] d@[i])@,
            ) > 1),
        (r matches Err(GiftCircleError::DuplicateNames(d)) ==> forall|v: Seq<char>|
            #[trigger] count_val(names_of(from_people.deep_view()), v) > 1 ==> exists|i: int|
                0 <= i < d@.len() && (#[trigger] d@[i])@ == v),
        (r matches Err(GiftCircleError::DuplicateNames(d)) ==> forall|i: int, j: int|
            0 <= i < j < d@.len() ==> (#[trigger] d@[i])@ != (#[trigger] d@[j])@),
        (from_people.deep_view().len() > 2 && !distinct_names(from_people.deep_view()))
            <==> (r matches Err(GiftCircleError::DuplicateNames(_))),
        (r matches Err(GiftCircleError::IncompleteGroupAssignment)) <==> (
        from_people.deep_view().len() > 2 && distinct_names(from_people.deep_view()) && use_groups
            && !all_grouped(from_people.deep_view())),
        (r matches Err(GiftCircleError::InfeasibleGroupDistribution)) <==> (
        from_people.deep_view().len() > 2 && distinct_names(from_people.deep_view()) && use_groups
            && all_grouped(from_people.deep_view()) && !feasible(
            groups_of(from_people.deep_view()),
        )),
        (r matches Err(GiftCircleError::SearchExhausted(bound)) ==> bound == MAX_ATTEMPTS
            && from_people.deep_view().len() > 2 && distinct_names(from_people.deep_view())
            && use_groups && all_grouped(from_people.deep_view()) && feasible(
            groups_of(from_people.deep_view()),
        ) && !two_group_split(groups_of(from_people.deep_view()))),
        ((!use_groups && from_people.deep_view().len() > 2 && distinct_names(
            from_people.deep_view(),
        )) ==> r is Ok),
        ((use_groups && from_people.deep_view().len() > 2 && distinct_names(
            from_people.deep_view(),
        ) && all_grouped(from_people.deep_view()) && feasible(groups_of(from_people.deep_view()))
            && two_group_split(groups_of(from_people.deep_view()))) ==> r is Ok),
        (r is Ok ==> from_people.deep_view().len() > 2 && distinct_names(
            from_people.deep_view(),
        ) && (use_groups ==> all_grouped(from_people.deep_view()) && feasible(
            groups_of(from_people.deep_view()),
        ))),
        (r matches Ok(path) ==> path.deep_view().len() == from_people.deep_view().len()),
        (r matches Ok(path) ==> distinct_names(path.deep_view())),
        (r matches Ok(path) ==> stripped(path.deep_view()).to_multiset() == stripped(
            from_people.deep_view(),
        ).to_multiset()),
        (r matches Ok(path) ==> names_of(path.deep_view()).to_multiset() == names_of(
            from_people.deep_view(),
        ).to_multiset()),
        (r matches Ok(path) ==> circle_links_assigned(path.deep_view())),
        (use_groups ==> (r matches Ok(path) ==> all_grouped(path.deep_view()) && valid_circle(
            path.deep_view(),
        ) && adjacent_groups_differ(path.deep_view()))),
{
    if from_people.len() <= 2 {
        return Err(GiftCircleError::InsufficientParticipants);
    }
    let duplicates: Vec<String> = from_people.get_duplicated_names();
    if duplicates.len() != 0 {
        return Err(GiftCircleError::DuplicateNames(duplicates));
    }
    if use_groups {
        if from_people.has_empty_group() {
            return Err(GiftCircleError::IncompleteGroupAssignment);
        }
        if !from_people.has_possible_hamiltonian_path() {
            return Err(GiftCircleError::InfeasibleGroupDistribution);
        }
    }
    let mut attempt_count: u16 = 0;
    let mut have_valid_circle = false;
    let mut gift_path: People = Vec::new();
    while !have_valid_circle && attempt_count < MAX_ATTEMPTS
        invariant
            from_people.deep_view().len() == from_people@.len(),
            from_people@.len() > 2,
            from_people@.len() <= u16::MAX,
            distinct_names(from_people.deep_view()),
            use_groups ==> all_grouped(from_people.deep_view()) && feasible(
                groups_of(from_people.deep_view()),
            ),
            use_groups ==> no_sentinel_group(from_people.deep_view()),
            attempt_count <= MAX_ATTEMPTS,
            (!use_groups && attempt_count > 0) ==> have_valid_circle,
            (use_groups && two_group_split(groups_of(from_people.deep_view())) && attempt_count
                > 0) ==> have_valid_circle,
            have_valid_circle ==> gift_path.deep_view().len() == from_people.deep_view().len(),
            have_valid_circle ==> distinct_names(gift_path.deep_view()),
            have_valid_circle ==> stripped(gift_path.deep_view()).to_multiset() == stripped(
                from_people.deep_view(),
            ).to_multiset(),
            have_valid_circle ==> names_of(gift_path.deep_view()).to_multiset() == names_of(
                from_people.deep_view(),
            ).to_multiset(),
            (have_valid_circle && use_groups) ==> all_grouped(gift_path.deep_view())
                && valid_circle(gift_path.deep_view()),
        decreases MAX_ATTEMPTS - attempt_count,
    {
        let mut available_people: People = from_people.clone();
        proof {
            assert(available_people@ =~= from_people@);
            assert(available_people.deep_view() =~= from_people.deep_view());
        }
        if use_groups {
            gift_path = generate_group_path(&mut available_people);
            proof {
                lemma_attempt_no_sentinel(from_people.deep_view(), gift_path.deep_view());
                if two_group_split(groups_of(from_people.deep_view())) {
                    lemma_two_group_attempt_valid(
                        from_people.deep_view(),
                        gift_path.deep_view(),
                    );
                }
            }
            if gift_path.is_valid_gift_circle() {
                have_valid_circle = true;
            }
        } else {
            gift_path = generate_no_group_path(&mut available_people);
            if from_people.len() == gift_path.len() {
                have_valid_circle = true;
            }
        }
        attempt_count += 1;
    }
    if !have_valid_circle {
        return Err(GiftCircleError::SearchExhausted(MAX_ATTEMPTS));
    }
    let ghost q = gift_path.deep_view();
    gift_path.assign_gift_recipients();
    proof {
        reveal(circle_links_assigned);
        let rv = gift_path.deep_view();
        let n = rv.len() as int;
        assert forall|i: int|
            0 <= i < n implies (#[trigger] rv[i]).assigned_person_name == Some(
            rv[(i + 1) % n].name,
        ) by {
            assert(rv[i] == with_recipient(q, i));
            assert(0 <= (i + 1) % n < n) by {
                vstd::arithmetic::div_mod::lemma_mod_bound(i + 1, n);
            }
            assert(rv[(i + 1) % n] == with_recipient(q, (i + 1) % n));
        }
        assert forall|i: int| 0 <= i < n implies #[trigger] stripped(rv)[i] == stripped(q)[i] by {
            assert(rv[i] == with_recipient(q, i));
            assert(strip_assignment(rv[i]) =~= strip_assignment(q[i]));
        }
        assert(stripped(rv) =~= stripped(q));
        assert forall|i: int| 0 <= i < n implies #[trigger] names_of(rv)[i] == names_of(q)[i] by {
            assert(rv[i] == with_recipient(q, i));
        }
        assert(names_of(rv) =~= names_of(q));
        assert forall|i: int, j: int| 0 <= i < j < n implies rv[i].name != rv[j].name by {
            assert(rv[i] == with_recipient(q, i));
            assert(rv[j] == with_recipient(q, j));
        }
        if use_groups {
            assert forall|i: int|
                0 <= i < n implies (#[trigger] rv[i].group_number) is Some by {
                assert(rv[i] == with_recipient(q, i));
            }
            assert forall|i: int|
                0 <= i < n implies #[trigger] group_or_sentinel(rv[i]) != prev_group_at(
                rv,
                i,
            ) by {
                assert(rv[i] == with_recipient(q, i));
                if i > 0 {
                    assert(rv[i - 1] == with_recipient(q, i - 1));
                }
                assert(group_or_sentinel(q[i]) != prev_group_at(q, i));
            }
            assert(rv[0] == with_recipient(q, 0));
            assert(rv[n - 1] == with_recipient(q, n - 1));
            assert(wrap_groups_differ(rv));
            assert forall|i: int|
                0 <= i < n - 1 implies (#[trigger] rv[i]).group_number != rv[i
                + 1].group_number by {
                assert(group_or_sentinel(rv[i + 1]) != prev_group_at(rv, i + 1));
                assert(rv[i].group_number is Some);
                assert(rv[i + 1].group_number is Some);
            }
            assert(rv[n - 1].group_number != rv[0].group_number);
        }
    }
    Ok(gift_path)
}

} // verus!

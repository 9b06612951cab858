use vstd::prelude::*;

use crate::balance::feasible;
use crate::group::Group;
use crate::person::{Person, PersonV};
use crate::seq_facts::{lemma_map_values_push, lemma_map_values_remove};
use crate::tally::{
    count_val, duplicate_names_of, is_largest_group, largest_group_of, lemma_count_le_len,
    lemma_count_pair, lemma_count_pos, lemma_count_push, lemma_distinct_counts,
};

verus! {

broadcast use vstd::seq_lib::group_to_multiset_ensures;

/// An ordered collection of participants.
pub type People = Vec<Person>;

/// The group of a participant, with the sentinel `0` standing in where no
/// group was assigned; a scan's "previous group" starts from the same
/// sentinel.
pub open spec fn group_or_sentinel(p: PersonV) -> u16 {
    match p.group_number {
        Some(g) => g,
        None => 0,
    }
}

/// The group of each participant, in order.
pub open spec fn groups_of(s: Seq<PersonV>) -> Seq<u16> {
    s.map_values(|p: PersonV| group_or_sentinel(p))
}

/// The name of each participant, in order.
pub open spec fn names_of(s: Seq<PersonV>) -> Seq<Seq<char>> {
    s.map_values(|p: PersonV| p.name)
}

/// Every participant has a group assigned.
pub open spec fn all_grouped(s: Seq<PersonV>) -> bool {
    forall|i: int| 0 <= i < s.len() ==> (#[trigger] s[i].group_number) is Some
}

/// No two participants share a display name.
pub open spec fn distinct_names(s: Seq<PersonV>) -> bool {
    forall|i: int, j: int| 0 <= i < j < s.len() ==> s[i].name != s[j].name
}

/// No participant carries the sentinel value as a real group, so the
/// sentinel that seeds a scan cannot collide with any participant's group.
pub open spec fn no_sentinel_group(s: Seq<PersonV>) -> bool {
    forall|i: int| 0 <= i < s.len() ==> (#[trigger] s[i]).group_number != Some(0u16)
}

/// The group preceding position `i` in a left-to-right scan: the sentinel
/// at the start, afterwards the group one position back.
pub open spec fn prev_group_at(s: Seq<PersonV>, i: int) -> u16 {
    if i == 0 {
        0u16
    } else {
        group_or_sentinel(s[i - 1])
    }
}

/// No participant's group equals the previous one in a scan seeded by the
/// sentinel.
pub open spec fn no_consecutive_groups(s: Seq<PersonV>) -> bool {
    forall|i: int| 0 <= i < s.len() ==> #[trigger] group_or_sentinel(s[i]) != prev_group_at(s, i)
}

/// The first and last participants belong to different groups (the
/// wrap-around edge of the cycle).
pub open spec fn wrap_groups_differ(s: Seq<PersonV>) -> bool {
    group_or_sentinel(s[0]) != group_or_sentinel(s[s.len() - 1])
}

/// A candidate sequence forms a valid gift circle.
pub open spec fn valid_circle(s: Seq<PersonV>) -> bool {
    wrap_groups_differ(s) && no_consecutive_groups(s)
}

/// The same participant with no recipient assigned.
pub open spec fn strip_assignment(p: PersonV) -> PersonV {
    PersonV { assigned_person_name: None, ..p }
}

/// The participants with their recipient fields cleared.
pub open spec fn stripped(s: Seq<PersonV>) -> Seq<PersonV> {
    s.map_values(|p: PersonV| strip_assignment(p))
}

/// The participant at position `i`, given the name of the next participant
/// (wrapping around) as recipient.
pub open spec fn with_recipient(s: Seq<PersonV>, i: int) -> PersonV {
    PersonV { assigned_person_name: Some(s[(i + 1) % (s.len() as int)].name), ..s[i] }
}


/// Removing a participant removes its group from the group sequence.
pub proof fn lemma_groups_of_remove(s: Seq<PersonV>, k: int)
    requires
        0 <= k < s.len(),
    ensures
        groups_of(s.remove(k)) == groups_of(s).remove(k),
{
    lemma_map_values_remove(s, |p: PersonV| group_or_sentinel(p), k);
}

/// Appending a participant appends its group to the group sequence.
pub proof fn lemma_groups_of_push(s: Seq<PersonV>, x: PersonV)
    ensures
        groups_of(s.push(x)) == groups_of(s).push(group_or_sentinel(x)),
{
    lemma_map_values_push(s, |p: PersonV| group_or_sentinel(p), x);
}

/// Removing a participant removes its name from the name sequence.
pub proof fn lemma_names_of_remove(s: Seq<PersonV>, k: int)
    requires
        0 <= k < s.len(),
    ensures
        names_of(s.remove(k)) == names_of(s).remove(k),
{
    lemma_map_values_remove(s, |p: PersonV| p.name, k);
}

/// Appending a participant appends its name to the name sequence.
pub proof fn lemma_names_of_push(s: Seq<PersonV>, x: PersonV)
    ensures
        names_of(s.push(x)) == names_of(s).push(x.name),
{
    lemma_map_values_push(s, |p: PersonV| p.name, x);
}

/// Removing a participant removes its stripped form from the stripped
/// sequence.
pub proof fn lemma_stripped_remove(s: Seq<PersonV>, k: int)
    requires
        0 <= k < s.len(),
    ensures
        stripped(s.remove(k)) == stripped(s).remove(k),
{
    lemma_map_values_remove(s, |p: PersonV| strip_assignment(p), k);
}

/// Appending a participant appends its stripped form to the stripped
/// sequence.
pub proof fn lemma_stripped_push(s: Seq<PersonV>, x: PersonV)
    ensures
        stripped(s.push(x)) == stripped(s).push(strip_assignment(x)),
{
    lemma_map_values_push(s, |p: PersonV| strip_assignment(p), x);
}

/// Two sequences with the same multiset of stripped participants draw
/// their group values from one another: every group on one side is some
/// participant's group on the other.
pub proof fn lemma_same_multiset_same_groups(out: Seq<PersonV>, inp: Seq<PersonV>)
    requires
        stripped(out).to_multiset() == stripped(inp).to_multiset(),
    ensures
        forall|i: int|
            0 <= i < out.len() ==> exists|j: int|
                0 <= j < inp.len() && (#[trigger] out[i]).group_number == inp[j].group_number,
{
    assert forall|i: int| 0 <= i < out.len() implies exists|j: int|
        0 <= j < inp.len() && (#[trigger] out[i]).group_number == inp[j].group_number by {
        assert(stripped(out)[i] == strip_assignment(out[i]));
        assert(stripped(out).contains(stripped(out)[i]));
        assert(stripped(out).to_multiset().count(stripped(out)[i]) > 0);
        assert(stripped(inp).to_multiset().count(stripped(out)[i]) > 0);
        assert(stripped(inp).contains(stripped(out)[i]));
        let j = choose|j: int|
            0 <= j < stripped(inp).len() && stripped(inp)[j] == stripped(out)[i];
        assert(stripped(inp)[j] == strip_assignment(inp[j]));
        assert(out[i].group_number == inp[j].group_number);
    }
}

/// Cycle-forming operations on an ordered collection of participants.
pub trait PeopleCycle {
    /// The model of the contained participants.
    spec fn people(&self) -> Seq<PersonV>;

    /// Gives every participant the name of the next participant as
    /// recipient, the last wrapping around to the first.
    fn assign_gift_recipients(&mut self)
        requires
            old(self).people().len() > 0,
            distinct_names(old(self).people()),
        ensures
            final(self).people().len() == old(self).people().len(),
            forall|i: int|
                0 <= i < old(self).people().len() ==> final(self).people()[i]
                    == with_recipient(old(self).people(), i),
    ;

    /// The names that occur more than once, each listed once, in no fixed
    /// order; empty exactly when the names are pairwise distinct.
    fn get_duplicated_names(&self) -> (dups: Vec<String>)
        ensures
            forall|i: int|
                0 <= i < dups@.len() ==> count_val(
                    names_of(self.people()),
                    (#[trigger] dups@[i])@,
                ) > 1,
            forall|v: Seq<char>|
                #[trigger] count_val(names_of(self.people()), v) > 1 ==> exists|i: int|
                    0 <= i < dups@.len() && (#[trigger] dups@[i])@ == v,
            forall|i: int, j: int|
                0 <= i < j < dups@.len() ==> (#[trigger] dups@[i])@ != (#[trigger] dups@[j])@,
            (dups@.len() == 0) <==> distinct_names(self.people()),
    ;

    /// Whether the first and last participants belong to different groups.
    fn first_and_last_groups_are_different(&self) -> (r: bool)
        requires
            self.people().len() > 0,
            self.people()[0].group_number is Some,
            self.people()[self.people().len() - 1].group_number is Some,
        ensures
            r == wrap_groups_differ(self.people()),
    ;

    /// Whether some participant lacks a group assignment.
    fn has_empty_group(&self) -> (r: bool)
        ensures
            r == !all_grouped(self.people()),
    ;

    /// Whether no participant's group equals the previous participant's,
    /// scanning left to right with the previous group seeded by the
    /// sentinel.
    fn has_no_consecutive_group_numbers(&self) -> (r: bool)
        requires
            all_grouped(self.people()),
            no_sentinel_group(self.people()),
        ensures
            r == no_consecutive_groups(self.people()),
    ;

    /// Whether a cycle with no two adjacent equal groups can possibly
    /// exist: twice the largest group's size must not exceed the total.
    fn has_possible_hamiltonian_path(&self) -> (r: bool)
        requires
            self.people().len() > 0,
            self.people().len() <= u16::MAX,
            all_grouped(self.people()),
        ensures
            r == feasible(groups_of(self.people())),
    ;

    /// Whether the sequence is a valid gift circle: the wrap-around groups
    /// differ and no two adjacent groups are equal.
    fn is_valid_gift_circle(&self) -> (r: bool)
        requires
            self.people().len() > 0,
            all_grouped(self.people()),
            no_sentinel_group(self.people()),
        ensures
            r == valid_circle(self.people()),
    ;

    /// The group assigned to the most participants; ties go to the
    /// smallest group number.
    fn largest_group(&self) -> (g: Group)
        requires
            self.people().len() > 0,
            self.people().len() <= u16::MAX,
            all_grouped(self.people()),
        ensures
            is_largest_group(groups_of(self.people()), g),
    ;

    /// The group assigned to the most participants outside
    /// `previous_group`; ties go to the smallest group number.
    fn largest_non_prev_group(&self, previous_group: u16) -> (g: Group)
        requires
            self.people().len() <= u16::MAX,
            all_grouped(self.people()),
            exists|i: int|
                0 <= i < self.people().len() && group_or_sentinel(#[trigger] self.people()[i])
                    != previous_group,
        ensures
            g.number != previous_group,
            g.size > 0,
            count_val(groups_of(self.people()), g.number) == g.size,
            forall|q: u16|
                q != previous_group ==> #[trigger] count_val(groups_of(self.people()), q)
                    <= g.size,
            forall|q: u16|
                q != previous_group && #[trigger] count_val(groups_of(self.people()), q) == g.size
                    ==> g.number <= q,
    ;
}

impl PeopleCycle for Vec<Person> {
    open spec fn people(&self) -> Seq<PersonV> {
        self.deep_view()
    }

    fn assign_gift_recipients(&mut self) {
        let ghost orig = old(self).deep_view();
        let n = self.len();
        let last_name = self[n - 1].name.clone();
        let mut k: usize = 0;
        while k < n
            invariant
                n == self@.len(),
                0 < n <= usize::MAX,
                k <= n,
                distinct_names(orig),
                orig.len() == n,
                last_name@ == orig[n - 1].name,
                forall|j: int| k <= j < n ==> #[trigger] self.deep_view()[j] == orig[j],
                forall|j: int| 0 <= j < k ==> #[trigger] self.deep_view()[j] == with_recipient(
                    orig,
                    j,
                ),
            decreases n - k,
        {
            proof {
                assert(self.deep_view()[k as int] == orig[k as int]);
                if k < n - 1 {
                    assert(orig[k as int].name != orig[n - 1].name);
                }
            }
            let next_name: String = if self[k].name == last_name {
                let p0 = &self[0];
                proof {
                    if 0 < k {
                        assert(self.deep_view()[0] == with_recipient(orig, 0));
                    }
                }
                p0.name.clone()
            } else {
                self[k + 1].name.clone()
            };
            proof {
                if k == n - 1 {
                    assert((k as int + 1) % (n as int) == 0) by (nonlinear_arith)
                        requires k == n - 1 && n > 0;
                } else {
                    vstd::arithmetic::div_mod::lemma_small_mod((k + 1) as nat, n as nat);
                    assert((k as int + 1) % (n as int) == k as int + 1);
                    assert(self.deep_view()[k as int + 1] == orig[k as int + 1]);
                }
                assert(next_name@ == orig[((k as int + 1) % (n as int))].name);
            }
            let mut p = self[k].clone();
            proof {
                assert(p@ == orig[k as int]);
            }
            p.assigned_person_name = Some(next_name);
            let ghost before = self.deep_view();
            self.set(k, p);
            proof {
                assert forall|j: int| 0 <= j < n && j != k implies #[trigger] self.deep_view()[j]
                    == before[j] by {}
                assert(self@[k as int] == p);
                assert(self.deep_view()[k as int] == p@);
                assert(self.deep_view()[k as int] =~= with_recipient(orig, k as int));
            }
            k += 1;
        }
    }

    fn get_duplicated_names(&self) -> (dups: Vec<String>) {
        let ghost dv = self.deep_view();
        let mut names: Vec<String> = Vec::new();
        let mut k: usize = 0;
        while k < self.len()
            invariant
                k <= self@.len(),
                dv == self.deep_view(),
                dv.len() == self@.len(),
                names@.len() == k,
                names.deep_view() == names_of(dv.take(k as int)),
            decreases self@.len() - k,
        {
            let ghost oldnames = names.deep_view();
            names.push(self[k].name.clone());
            proof {
                assert(names.deep_view() =~= oldnames.push(dv[k as int].name));
                assert(dv.take(k as int + 1) =~= dv.take(k as int).push(dv[k as int]));
                lemma_map_values_push(dv.take(k as int), |p: PersonV| p.name, dv[k as int]);
            }
            k += 1;
        }
        proof {
            assert(dv.take(dv.len() as int) =~= dv);
        }
        let dups = duplicate_names_of(&names);
        proof {
            if dups@.len() == 0 {
                assert forall|i: int, j: int| 0 <= i < j < dv.len() implies dv[i].name
                    != dv[j].name by {
                    if dv[i].name == dv[j].name {
                        assert(names_of(dv)[i] == dv[i].name);
                        assert(names_of(dv)[j] == dv[j].name);
                        lemma_count_pair(names_of(dv), i, j);
                    }
                }
            } else {
                if distinct_names(dv) {
                    assert forall|i: int, j: int|
                        0 <= i < j < names_of(dv).len() implies names_of(dv)[i]
                        != names_of(dv)[j] by {
                        assert(names_of(dv)[i] == dv[i].name);
                        assert(names_of(dv)[j] == dv[j].name);
                    }
                    lemma_distinct_counts(names_of(dv));
                    assert(count_val(names_of(dv), dups@[0]@) > 1);
                    assert(false);
                }
            }
        }
        dups
    }

    fn first_and_last_groups_are_different(&self) -> (r: bool) {
        proof {
            assert(self@[0].group_number == self.deep_view()[0].group_number);
            assert(self@[self@.len() - 1].group_number == self.deep_view()[self@.len()
                - 1].group_number);
        }
        let first_group = self[0].group_number.unwrap();
        let last_group = self[self.len() - 1].group_number.unwrap();
        first_group != last_group
    }

    fn has_empty_group(&self) -> (r: bool) {
        let mut k: usize = 0;
        while k < self.len()
            invariant
                k <= self@.len(),
                forall|j: int| 0 <= j < k ==> (#[trigger] self.deep_view()[j].group_number)
                    is Some,
            decreases self@.len() - k,
        {
            if self[k].group_number.is_none() {
                proof {
                    assert(!((self.deep_view()[k as int].group_number) is Some));
                }
                return true;
            }
            k += 1;
        }
        false
    }

    fn has_no_consecutive_group_numbers(&self) -> (r: bool) {
        let ghost dv = self.deep_view();
        let mut previous_group: u16 = 0;
        let mut k: usize = 0;
        while k < self.len()
            invariant
                k <= self@.len(),
                dv == self.deep_view(),
                dv.len() == self@.len(),
                all_grouped(dv),
                previous_group == prev_group_at(dv, k as int),
                forall|j: int|
                    0 <= j < k ==> #[trigger] group_or_sentinel(dv[j]) != prev_group_at(dv, j),
            decreases self@.len() - k,
        {
            proof {
                assert((self.deep_view()[k as int].group_number) is Some);
            }
            let g = self[k].group_number.unwrap();
            if g == previous_group {
                assert(group_or_sentinel(dv[k as int]) == prev_group_at(dv, k as int));
                return false;
            }
            previous_group = g;
            k += 1;
        }
        true
    }

    fn has_possible_hamiltonian_path(&self) -> (r: bool) {
        let ghost gs = groups_of(self.deep_view());
        let g = self.largest_group();
        let r = (g.size as usize) * 2 <= self.len();
        proof {
            assert(gs.len() == self.deep_view().len());
            if r {
                assert forall|q: u16| 2 * #[trigger] count_val(gs, q) <= gs.len() by {
                    assert(count_val(gs, q) <= g.size);
                }
            } else {
                assert(2 * count_val(gs, g.number) > gs.len());
            }
        }
        r
    }

    fn is_valid_gift_circle(&self) -> (r: bool) {
        proof {
            assert(self.deep_view()[0].group_number is Some);
            assert(self.deep_view()[self.deep_view().len() - 1].group_number is Some);
        }
        self.first_and_last_groups_are_different() && self.has_no_consecutive_group_numbers()
    }

    fn largest_group(&self) -> (g: Group) {
        let ghost dv = self.deep_view();
        let mut groups: Vec<u16> = Vec::new();
        let mut k: usize = 0;
        while k < self.len()
            invariant
                k <= self@.len(),
                dv == self.deep_view(),
                dv.len() == self@.len(),
                all_grouped(dv),
                groups@.len() == k,
                groups@ == groups_of(dv.take(k as int)),
            decreases self@.len() - k,
        {
            let ghost oldgroups = groups@;
            proof {
                assert((self.deep_view()[k as int].group_number) is Some);
            }
            let g = self[k].group_number.unwrap();
            groups.push(g);
            proof {
                assert(dv.take(k as int + 1) =~= dv.take(k as int).push(dv[k as int]));
                lemma_map_values_push(
                    dv.take(k as int),
                    |p: PersonV| group_or_sentinel(p),
                    dv[k as int],
                );
                assert(groups@ == oldgroups.push(g));
            }
            k += 1;
        }
        proof {
            assert(dv.take(dv.len() as int) =~= dv);
        }
        largest_group_of(&groups)
    }

    fn largest_non_prev_group(&self, previous_group: u16) -> (g: Group) {
        let ghost dv = self.deep_view();
        let ghost gs = groups_of(dv);
        let mut groups: Vec<u16> = Vec::new();
        let mut k: usize = 0;
        while k < self.len()
            invariant
                k <= self@.len(),
                dv == self.deep_view(),
                dv.len() == self@.len(),
                gs == groups_of(dv),
                gs.len() == dv.len(),
                all_grouped(dv),
                groups@.len() <= k,
                count_val(groups@, previous_group) == 0,
                forall|q: u16|
                    q != previous_group ==> #[trigger] count_val(groups@, q) == count_val(
                        groups_of(dv.take(k as int)),
                        q,
                    ),
            decreases self@.len() - k,
        {
            let ghost oldgroups = groups@;
            proof {
                assert((self.deep_view()[k as int].group_number) is Some);
            }
            let g = self[k].group_number.unwrap();
            if g != previous_group {
                groups.push(g);
            }
            proof {
                assert(dv.take(k as int + 1) =~= dv.take(k as int).push(dv[k as int]));
                lemma_map_values_push(
                    dv.take(k as int),
                    |p: PersonV| group_or_sentinel(p),
                    dv[k as int],
                );
                assert forall|q: u16|
                    q != previous_group implies #[trigger] count_val(groups@, q) == count_val(
                    groups_of(dv.take(k as int + 1)),
                    q,
                ) by {
                    lemma_count_push(groups_of(dv.take(k as int)), q, g);
                    if g != previous_group {
                        lemma_count_push(oldgroups, q, g);
                    }
                }
                if g != previous_group {
                    lemma_count_push(oldgroups, previous_group, g);
                }
            }
            k += 1;
        }
        proof {
            assert(dv.take(dv.len() as int) =~= dv);
            let w = choose|i: int|
                0 <= i < self.people().len() && group_or_sentinel(#[trigger] self.people()[i])
                    != previous_group;
            assert(self.people() == dv);
            let qw = group_or_sentinel(dv[w]);
            assert(gs[w] == qw);
            lemma_count_pos(gs, qw);
            assert(count_val(groups@, qw) > 0);
            lemma_count_le_len(groups@, qw);
            assert(groups@.len() > 0);
        }
        let g = largest_group_of(&groups);
        proof {
            assert(count_val(groups@, g.number) == g.size);
            assert(g.number != previous_group);
            assert forall|q: u16|
                q != previous_group implies #[trigger] count_val(gs, q) <= g.size by {
                assert(count_val(groups@, q) == count_val(gs, q));
            }
            assert forall|q: u16|
                q != previous_group && #[trigger] count_val(gs, q) == g.size implies g.number
                <= q by {
                assert(count_val(groups@, q) == count_val(gs, q));
            }
        }
        g
    }
}

} // verus!

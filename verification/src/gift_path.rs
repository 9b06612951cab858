use vstd::prelude::*;

use crate::balance::{
    balanced, covered_by, feasible, lemma_balanced_init, lemma_balanced_pick_exists,
    lemma_balanced_step, lemma_two_group_wrap, two_group_split,
};
use crate::group::Group;
use crate::pick::pick_one;
use crate::seq_facts::{lemma_map_values_push, lemma_map_values_remove};
use crate::tally::{
    count_val, duplicate_names_of, is_largest_group, largest_group_of, lemma_count_le_len,
    lemma_count_pair, lemma_count_pos, lemma_count_push, lemma_distinct_counts,
};
use vstd::pervasive::cloned;

verus! {

broadcast use {vstd::multiset::group_multiset_axioms, vstd::seq_lib::group_to_multiset_ensures};

/// Mathematical model of a path participant: each string field by its
/// character sequence.
#[verifier::ext_equal]
pub ghost struct PathPersonV {
    pub name: Seq<char>,
    pub email_address: Seq<char>,
    pub group_number: u16,
    pub assigned_person_name: Option<Seq<char>>,
}

/// A participant in a gift path: a display name, an e-mail address, a
/// group number (always present here), and the recipient name that an
/// accepted path assigns.
#[derive(Debug)]
pub struct PathPerson {
    pub name: String,
    pub email_address: String,
    pub group_number: u16,
    pub assigned_person_name: Option<String>,
}

impl View for PathPerson {
    type V = PathPersonV;

    open spec fn view(&self) -> PathPersonV {
        PathPersonV {
            name: self.name@,
            email_address: self.email_address@,
            group_number: self.group_number,
            assigned_person_name: match self.assigned_person_name {
                Some(s) => Some(s@),
                None => None,
            },
        }
    }
}

impl DeepView for PathPerson {
    type V = PathPersonV;

    open spec fn deep_view(&self) -> PathPersonV {
        self@
    }
}

impl Clone for PathPerson {
    fn clone(&self) -> (res: PathPerson)
        ensures
            res == *self,
    {
        PathPerson {
            name: self.name.clone(),
            email_address: self.email_address.clone(),
            group_number: self.group_number,
            assigned_person_name: match &self.assigned_person_name {
                Some(n) => Some(n.clone()),
                None => None,
            },
        }
    }
}

impl PartialEq for PathPerson {
    fn eq(&self, other: &PathPerson) -> (r: bool) {
        let assigned_eq = match (&self.assigned_person_name, &other.assigned_person_name) {
            (Some(x), Some(y)) => *x == *y,
            (None, None) => true,
            _ => false,
        };
        let r = self.name == other.name && self.email_address == other.email_address
            && self.group_number == other.group_number && assigned_eq;
        proof {
            if r {
                assert(self@ =~= other@);
            }
        }
        r
    }
}

impl vstd::std_specs::cmp::PartialEqSpecImpl for PathPerson {
    open spec fn obeys_eq_spec() -> bool {
        true
    }

    open spec fn eq_spec(&self, other: &PathPerson) -> bool {
        self@ == other@
    }
}

impl PathPerson {
    /// A participant with the given name, e-mail address and group, and no
    /// recipient assigned yet.
    pub fn new(name: String, email_address: String, group_number: u16) -> (p: PathPerson)
        ensures
            p@.name == name@,
            p@.email_address == email_address@,
            p@.group_number == group_number,
            p@.assigned_person_name is None,
    {
        PathPerson { name, email_address, group_number, assigned_person_name: None }
    }
}

/// The group of each participant, in order.
pub open spec fn path_groups_of(s: Seq<PathPersonV>) -> Seq<u16> {
    s.map_values(|p: PathPersonV| p.group_number)
}

/// The name of each participant, in order.
pub open spec fn path_names_of(s: Seq<PathPersonV>) -> Seq<Seq<char>> {
    s.map_values(|p: PathPersonV| p.name)
}

/// No two participants share a display name.
pub open spec fn path_distinct_names(s: Seq<PathPersonV>) -> bool {
    forall|i: int, j: int| 0 <= i < j < s.len() ==> s[i].name != s[j].name
}

/// No participant carries the sentinel value as a real group, so the
/// sentinel that seeds a scan cannot collide with any participant's group.
pub open spec fn path_nonzero_groups(s: Seq<PathPersonV>) -> bool {
    forall|i: int| 0 <= i < s.len() ==> (#[trigger] s[i]).group_number != 0u16
}

/// The same participant with no recipient assigned.
pub open spec fn path_strip_assignment(p: PathPersonV) -> PathPersonV {
    PathPersonV { assigned_person_name: None, ..p }
}

/// The participants with their recipient fields cleared.
pub open spec fn path_stripped(s: Seq<PathPersonV>) -> Seq<PathPersonV> {
    s.map_values(|p: PathPersonV| path_strip_assignment(p))
}

/// The group preceding position `i` in a left-to-right scan: the sentinel
/// `0` at the start, afterwards the group one position back.
pub open spec fn path_prev_group_at(s: Seq<PathPersonV>, i: int) -> u16 {
    if i == 0 {
        0u16
    } else {
        s[i - 1].group_number
    }
}

/// No participant's group equals the previous one in a scan seeded by the
/// sentinel.
pub open spec fn path_no_consecutive_groups(s: Seq<PathPersonV>) -> bool {
    forall|i: int| 0 <= i < s.len() ==> (#[trigger] s[i]).group_number != path_prev_group_at(s, i)
}

/// The first and last participants belong to different groups.
pub open spec fn path_wrap_groups_differ(s: Seq<PathPersonV>) -> bool {
    s[0].group_number != s[s.len() - 1].group_number
}

/// A candidate sequence forms a valid gift path.
pub open spec fn path_valid(s: Seq<PathPersonV>) -> bool {
    path_wrap_groups_differ(s) && path_no_consecutive_groups(s)
}

/// Removing a participant removes its group from the group sequence.
proof fn lemma_path_groups_remove(s: Seq<PathPersonV>, k: int)
    requires
        0 <= k < s.len(),
    ensures
        path_groups_of(s.remove(k)) == path_groups_of(s).remove(k),
{
    lemma_map_values_remove(s, |p: PathPersonV| p.group_number, k);
}

/// Appending a participant appends its group to the group sequence.
proof fn lemma_path_groups_push(s: Seq<PathPersonV>, x: PathPersonV)
    ensures
        path_groups_of(s.push(x)) == path_groups_of(s).push(x.group_number),
{
    lemma_map_values_push(s, |p: PathPersonV| p.group_number, x);
}

/// Removing a participant removes its name from the name sequence.
proof fn lemma_path_names_remove(s: Seq<PathPersonV>, k: int)
    requires
        0 <= k < s.len(),
    ensures
        path_names_of(s.remove(k)) == path_names_of(s).remove(k),
{
    lemma_map_values_remove(s, |p: PathPersonV| p.name, k);
}

/// Appending a participant appends its name to the name sequence.
proof fn lemma_path_names_push(s: Seq<PathPersonV>, x: PathPersonV)
    ensures
        path_names_of(s.push(x)) == path_names_of(s).push(x.name),
{
    lemma_map_values_push(s, |p: PathPersonV| p.name, x);
}

/// Removing a participant removes its stripped form from the stripped
/// sequence.
proof fn lemma_path_stripped_remove(s: Seq<PathPersonV>, k: int)
    requires
        0 <= k < s.len(),
    ensures
        path_stripped(s.remove(k)) == path_stripped(s).remove(k),
{
    lemma_map_values_remove(s, |p: PathPersonV| path_strip_assignment(p), k);
}

/// Appending a participant appends its stripped form to the stripped
/// sequence.
proof fn lemma_path_stripped_push(s: Seq<PathPersonV>, x: PathPersonV)
    ensures
        path_stripped(s.push(x)) == path_stripped(s).push(path_strip_assignment(x)),
{
    lemma_map_values_push(s, |p: PathPersonV| path_strip_assignment(p), x);
}

/// The group with the greatest count among the participants; ties go to
/// the smallest group number.
fn largest_group(persons: &Vec<PathPerson>) -> (g: Group)
    requires
        persons@.len() > 0,
        persons@.len() <= u16::MAX,
    ensures
        is_largest_group(path_groups_of(persons.deep_view()), g),
{
    let ghost dv = persons.deep_view();
    let mut groups: Vec<u16> = Vec::new();
    let mut k: usize = 0;
    while k < persons.len()
        invariant
            k <= persons@.len(),
            dv == persons.deep_view(),
            dv.len() == persons@.len(),
            groups@.len() == k,
            groups@ == path_groups_of(dv.take(k as int)),
        decreases persons@.len() - k,
    {
        let ghost oldgroups = groups@;
        let g = persons[k].group_number;
        groups.push(g);
        proof {
            assert(dv.take(k as int + 1) =~= dv.take(k as int).push(dv[k as int]));
            lemma_path_groups_push(dv.take(k as int), dv[k as int]);
            assert(groups@ == oldgroups.push(g));
        }
        k += 1;
    }
    proof {
        assert(dv.take(dv.len() as int) =~= dv);
    }
    largest_group_of(&groups)
}

/// The group with the greatest count among the participants outside
/// `previous_group`; ties go to the smallest group number.
fn largest_non_prev_group(persons: &Vec<PathPerson>, previous_group: u16) -> (g: Group)
    requires
        persons@.len() <= u16::MAX,
        exists|i: int|
            0 <= i < persons.deep_view().len() && (#[trigger] persons.deep_view()[i]).group_number
                != previous_group,
    ensures
        g.number != previous_group,
        g.size > 0,
        count_val(path_groups_of(persons.deep_view()), g.number) == g.size,
        forall|q: u16|
            q != previous_group ==> #[trigger] count_val(path_groups_of(persons.deep_view()), q)
                <= g.size,
        forall|q: u16|
            q != previous_group && #[trigger] count_val(path_groups_of(persons.deep_view()), q)
                == g.size ==> g.number <= q,
{
    let ghost dv = persons.deep_view();
    let ghost gs = path_groups_of(dv);
    let mut groups: Vec<u16> = Vec::new();
    let mut k: usize = 0;
    while k < persons.len()
        invariant
            k <= persons@.len(),
            dv == persons.deep_view(),
            dv.len() == persons@.len(),
            gs == path_groups_of(dv),
            gs.len() == dv.len(),
            groups@.len() <= k,
            count_val(groups@, previous_group) == 0,
            forall|q: u16|
                q != previous_group ==> #[trigger] count_val(groups@, q) == count_val(
                    path_groups_of(dv.take(k as int)),
                    q,
                ),
        decreases persons@.len() - k,
    {
        let ghost oldgroups = groups@;
        let g = persons[k].group_number;
        if g != previous_group {
            groups.push(g);
        }
        proof {
            assert(dv.take(k as int + 1) =~= dv.take(k as int).push(dv[k as int]));
            lemma_path_groups_push(dv.take(k as int), dv[k as int]);
            assert forall|q: u16|
                q != previous_group implies #[trigger] count_val(groups@, q) == count_val(
                path_groups_of(dv.take(k as int + 1)),
                q,
            ) by {
                lemma_count_push(path_groups_of(dv.take(k as int)), q, g);
                if g != previous_group {
                    lemma_count_push(oldgroups, q, g);
                }
            }
            if g != previous_group {
                lemma_count_push(oldgroups, previous_group, g);
            }
        }
        k += 1;
    }
    proof {
        assert(dv.take(dv.len() as int) =~= dv);
        let w = choose|i: int|
            0 <= i < persons.deep_view().len() && (#[trigger] persons.deep_view()[i]).group_number
                != previous_group;
        let qw = dv[w].group_number;
        assert(gs[w] == qw);
        lemma_count_pos(gs, qw);
        assert(count_val(groups@, qw) > 0);
        lemma_count_le_len(groups@, qw);
        assert(groups@.len() > 0);
    }
    let g = largest_group_of(&groups);
    proof {
        assert(count_val(groups@, g.number) == g.size);
        assert(g.number != previous_group);
        assert forall|q: u16| q != previous_group implies #[trigger] count_val(gs, q) <= g.size by {
            assert(count_val(groups@, q) == count_val(gs, q));
        }
        assert forall|q: u16|
            q != previous_group && #[trigger] count_val(gs, q) == g.size implies g.number <= q by {
            assert(count_val(groups@, q) == count_val(gs, q));
        }
    }
    g
}

/// Whether a path with no two adjacent equal groups can possibly exist:
/// twice the largest group's size must not exceed the total.
pub fn has_possible_hamiltonian_path(persons: &Vec<PathPerson>) -> (r: bool)
    requires
        persons@.len() > 0,
        persons@.len() <= u16::MAX,
    ensures
        r == feasible(path_groups_of(persons.deep_view())),
{
    let ghost gs = path_groups_of(persons.deep_view());
    let g = largest_group(persons);
    let r = (g.size as usize) * 2 <= persons.len();
    proof {
        assert(gs.len() == persons.deep_view().len());
        if r {
            assert forall|q: u16| 2 * #[trigger] count_val(gs, q) <= gs.len() by {
                assert(count_val(gs, q) <= g.size);
            }
        } else {
            assert(2 * count_val(gs, g.number) > gs.len());
        }
    }
    r
}

/// The names that occur more than once, each listed once, in no fixed
/// order; empty exactly when the names are pairwise distinct.
pub fn get_duplicate_names(persons: &Vec<PathPerson>) -> (dups: Vec<String>)
    ensures
        forall|i: int|
            0 <= i < dups@.len() ==> count_val(
                path_names_of(persons.deep_view()),
                (#[trigger] dups@[i])@,
            ) > 1,
        forall|v: Seq<char>|
            #[trigger] count_val(path_names_of(persons.deep_view()), v) > 1 ==> exists|i: int|
                0 <= i < dups@.len() && (#[trigger] dups@[i])@ == v,
        forall|i: int, j: int|
            0 <= i < j < dups@.len() ==> (#[trigger] dups@[i])@ != (#[trigger] dups@[j])@,
        (dups@.len() == 0) <==> path_distinct_names(persons.deep_view()),
{
    let ghost dv = persons.deep_view();
    let mut names: Vec<String> = Vec::new();
    let mut k: usize = 0;
    while k < persons.len()
        invariant
            k <= persons@.len(),
            dv == persons.deep_view(),
            dv.len() == persons@.len(),
            names@.len() == k,
            names.deep_view() == path_names_of(dv.take(k as int)),
        decreases persons@.len() - k,
    {
        let ghost oldnames = names.deep_view();
        names.push(persons[k].name.clone());
        proof {
            assert(names.deep_view() =~= oldnames.push(dv[k as int].name));
            assert(dv.take(k as int + 1) =~= dv.take(k as int).push(dv[k as int]));
            lemma_path_names_push(dv.take(k as int), dv[k as int]);
        }
        k += 1;
    }
    proof {
        assert(dv.take(dv.len() as int) =~= dv);
    }
    let dups = duplicate_names_of(&names);
    proof {
        if dups@.len() == 0 {
            assert forall|i: int, j: int| 0 <= i < j < dv.len() implies dv[i].name
                != dv[j].name by {
                if dv[i].name == dv[j].name {
                    assert(path_names_of(dv)[i] == dv[i].name);
                    assert(path_names_of(dv)[j] == dv[j].name);
                    lemma_count_pair(path_names_of(dv), i, j);
                }
            }
        } else {
            if path_distinct_names(dv) {
                assert forall|i: int, j: int|
                    0 <= i < j < path_names_of(dv).len() implies path_names_of(dv)[i]
                    != path_names_of(dv)[j] by {
                    assert(path_names_of(dv)[i] == dv[i].name);
                    assert(path_names_of(dv)[j] == dv[j].name);
                }
                lemma_distinct_counts(path_names_of(dv));
                assert(count_val(path_names_of(dv), dups@[0]@) > 1);
                assert(false);
            }
        }
    }
    dups
}

/// Whether the first and last participants belong to different groups.
pub fn first_and_last_groups_are_different(persons: &Vec<PathPerson>) -> (r: bool)
    requires
        persons@.len() > 0,
    ensures
        r == path_wrap_groups_differ(persons.deep_view()),
{
    let first_group = persons[0].group_number;
    let last_group = persons[persons.len() - 1].group_number;
    first_group != last_group
}

/// Whether no participant's group equals the previous participant's,
/// scanning left to right with the previous group seeded by the sentinel.
pub fn has_no_consecutive_group_numbers(persons: &Vec<PathPerson>) -> (r: bool)
    requires
        path_nonzero_groups(persons.deep_view()),
    ensures
        r == path_no_consecutive_groups(persons.deep_view()),
{
    let ghost dv = persons.deep_view();
    let mut previous_group: u16 = 0;
    let mut k: usize = 0;
    while k < persons.len()
        invariant
            k <= persons@.len(),
            dv == persons.deep_view(),
            dv.len() == persons@.len(),
            previous_group == path_prev_group_at(dv, k as int),
            forall|j: int|
                0 <= j < k ==> (#[trigger] dv[j]).group_number != path_prev_group_at(dv, j),
        decreases persons@.len() - k,
    {
        let g = persons[k].group_number;
        if g == previous_group {
            assert(dv[k as int].group_number == path_prev_group_at(dv, k as int));
            return false;
        }
        previous_group = g;
        k += 1;
    }
    true
}

/// Whether the sequence is a valid gift path: the wrap-around groups
/// differ and no two adjacent groups are equal.
pub fn is_gift_path_valid(persons: &Vec<PathPerson>) -> (r: bool)
    requires
        persons@.len() > 0,
        path_nonzero_groups(persons.deep_view()),
    ensures
        r == path_valid(persons.deep_view()),
{
    first_and_last_groups_are_different(persons) && has_no_consecutive_group_numbers(persons)
}

/// How many construction attempts `get_gift_path` makes before giving up.
pub const MAX_ATTEMPTS: u16 = 100;

/// `s` with the first entry equal to `x` removed; unchanged when no entry
/// equals `x`.
pub open spec fn path_remove_first_equal(s: Seq<PathPersonV>, x: PathPersonV) -> Seq<PathPersonV>
    decreases s.len(),
{
    if s.len() == 0 {
        s
    } else if s.first() == x {
        s.drop_first()
    } else {
        seq![s.first()] + path_remove_first_equal(s.drop_first(), x)
    }
}

/// When the first entry equal to `x` stands at position `k`, removing it
/// removes exactly that position.
proof fn lemma_path_remove_first_equal_at(s: Seq<PathPersonV>, x: PathPersonV, k: int)
    requires
        0 <= k < s.len(),
        s[k] == x,
        forall|i: int| 0 <= i < k ==> #[trigger] s[i] != x,
    ensures
        path_remove_first_equal(s, x) == s.remove(k),
    decreases s.len(),
{
    if k == 0 {
        assert(s.first() == x);
        assert(s.drop_first() =~= s.remove(0));
    } else {
        assert(s[0] != x);
        let t = s.drop_first();
        assert(t[k - 1] == s[k]);
        assert forall|i: int| 0 <= i < k - 1 implies #[trigger] t[i] != x by {
            assert(t[i] == s[i + 1]);
        }
        lemma_path_remove_first_equal_at(t, x, k - 1);
        assert(seq![s.first()] + t.remove(k - 1) =~= s.remove(k));
    }
}

/// Removing a value that never occurs changes nothing.
proof fn lemma_path_remove_first_equal_absent(s: Seq<PathPersonV>, x: PathPersonV)
    requires
        forall|i: int| 0 <= i < s.len() ==> #[trigger] s[i] != x,
    ensures
        path_remove_first_equal(s, x) == s,
    decreases s.len(),
{
    if s.len() > 0 {
        assert(s[0] != x);
        let t = s.drop_first();
        assert forall|i: int| 0 <= i < t.len() implies #[trigger] t[i] != x by {
            assert(t[i] == s[i + 1]);
        }
        lemma_path_remove_first_equal_absent(t, x);
        assert(seq![s.first()] + t =~= s);
    }
}

/// Moves `person` from the available list to the path: the first entry
/// equal to `person` leaves `from_persons` (none when no entry is equal),
/// and one copy of `person` is appended to `to_persons`.
fn move_person(
    from_persons: &mut Vec<PathPerson>,
    to_persons: &mut Vec<PathPerson>,
    person: &PathPerson,
)
    ensures
        final(from_persons).deep_view() == path_remove_first_equal(
            old(from_persons).deep_view(),
            person@,
        ),
        final(to_persons).deep_view() == old(to_persons).deep_view().push(person@),
        final(to_persons)@.len() == old(to_persons)@.len() + 1,
{
    let ghost dvo = old(from_persons).deep_view();
    let n = from_persons.len();
    let mut i: usize = 0;
    while i < n && from_persons[i] != *person
        invariant
            from_persons@ == old(from_persons)@,
            dvo == from_persons.deep_view(),
            n == from_persons@.len(),
            i <= n,
            forall|j: int| 0 <= j < i ==> #[trigger] dvo[j] != person@,
        decreases n - i,
    {
        i += 1;
    }
    if i < n {
        proof {
            assert(dvo[i as int] == person@);
            lemma_path_remove_first_equal_at(dvo, person@, i as int);
        }
        from_persons.remove(i);
        proof {
            assert(from_persons.deep_view() =~= dvo.remove(i as int));
        }
    } else {
        proof {
            lemma_path_remove_first_equal_absent(dvo, person@);
        }
    }
    let ghost dvt = to_persons.deep_view();
    to_persons.push(person.clone());
    proof {
        assert(to_persons.deep_view() =~= dvt.push(person@));
    }
}

/// No name occurs both among `a` and among `b`.
spec fn path_names_disjoint(a: Seq<PathPersonV>, b: Seq<PathPersonV>) -> bool {
    forall|i: int, j: int|
        0 <= i < a.len() && 0 <= j < b.len() ==> (#[trigger] a[i]).name != (#[trigger] b[j]).name
}

/// What one move from the pool to the path does to the ghost bookkeeping.
proof fn lemma_path_move_bookkeeping(
    pool: Seq<PathPersonV>,
    newpool: Seq<PathPersonV>,
    path: Seq<PathPersonV>,
    newpath: Seq<PathPersonV>,
    x: PathPersonV,
    j: int,
)
    requires
        0 <= j < pool.len(),
        pool[j] == x,
        path_distinct_names(pool),
        path_distinct_names(path),
        path_names_disjoint(pool, path),
        newpool == path_remove_first_equal(pool, x),
        newpath == path.push(x),
    ensures
        newpool == pool.remove(j),
        newpool.len() == pool.len() - 1,
        path_groups_of(newpool) == path_groups_of(pool).remove(j),
        path_distinct_names(newpool),
        path_distinct_names(newpath),
        path_names_disjoint(newpool, newpath),
        path_stripped(newpool).to_multiset().add(path_stripped(newpath).to_multiset())
            == path_stripped(pool).to_multiset().add(path_stripped(path).to_multiset()),
        path_names_of(newpool).to_multiset().add(path_names_of(newpath).to_multiset())
            == path_names_of(pool).to_multiset().add(path_names_of(path).to_multiset()),
{
    assert forall|i: int| 0 <= i < pool.len() && i != j implies pool[i] != x by {
        if i < j {
            assert(pool[i].name != pool[j].name);
        } else {
            assert(pool[j].name != pool[i].name);
        }
    }
    lemma_path_remove_first_equal_at(pool, x, j);
    lemma_path_stripped_remove(pool, j);
    lemma_path_stripped_push(path, x);
    lemma_path_names_remove(pool, j);
    lemma_path_names_push(path, x);
    lemma_path_groups_remove(pool, j);
    assert(path_stripped(pool)[j] == path_strip_assignment(x));
    assert(path_names_of(pool)[j] == x.name);
    assert(path_stripped(pool).remove(j).to_multiset() =~= path_stripped(
        pool,
    ).to_multiset().remove(path_stripped(pool)[j]));
    assert(path_stripped(newpool) == path_stripped(pool).remove(j));
    assert(path_stripped(path).push(path_strip_assignment(x)).to_multiset() =~= path_stripped(
        path,
    ).to_multiset().insert(path_strip_assignment(x)));
    assert(path_stripped(newpath) == path_stripped(path).push(path_strip_assignment(x)));
    assert(path_stripped(pool).contains(path_strip_assignment(x)));
    assert(path_stripped(pool).to_multiset().count(path_strip_assignment(x)) > 0);
    assert(path_stripped(newpool).to_multiset().add(path_stripped(newpath).to_multiset())
        =~= path_stripped(pool).to_multiset().add(path_stripped(path).to_multiset()));
    assert(path_names_of(pool).remove(j).to_multiset() =~= path_names_of(
        pool,
    ).to_multiset().remove(path_names_of(pool)[j]));
    assert(path_names_of(newpool) == path_names_of(pool).remove(j));
    assert(path_names_of(path).push(x.name).to_multiset() =~= path_names_of(
        path,
    ).to_multiset().insert(x.name));
    assert(path_names_of(newpath) == path_names_of(path).push(x.name));
    assert(path_names_of(pool).contains(x.name));
    assert(path_names_of(pool).to_multiset().count(x.name) > 0);
    assert(path_names_of(newpool).to_multiset().add(path_names_of(newpath).to_multiset())
        =~= path_names_of(pool).to_multiset().add(path_names_of(path).to_multiset()));
}

/// Builds a candidate path from a copy of the participants under the group
/// rule: every pick avoids the previous group, and whenever some group
/// outside the previous one fills more than half the remaining pool, the
/// pick is forced into a largest such group.
#[verifier::rlimit(100)]
fn generate_path(from_persons: &Vec<PathPerson>) -> (persons_path: Vec<PathPerson>)
    requires
        path_distinct_names(from_persons.deep_view()),
        feasible(path_groups_of(from_persons.deep_view())),
        from_persons@.len() <= u16::MAX,
    ensures
        persons_path.deep_view().len() == from_persons.deep_view().len(),
        path_distinct_names(persons_path.deep_view()),
        path_no_consecutive_groups(persons_path.deep_view()),
        path_stripped(persons_path.deep_view()).to_multiset() == path_stripped(
            from_persons.deep_view(),
        ).to_multiset(),
        path_names_of(persons_path.deep_view()).to_multiset() == path_names_of(
            from_persons.deep_view(),
        ).to_multiset(),
{
    let ghost orig = from_persons.deep_view();
    let mut available_persons: Vec<PathPerson> = from_persons.clone();
    let mut persons_path: Vec<PathPerson> = Vec::new();
    let mut previous_group: u16 = 0;
    proof {
        assert(available_persons@ =~= from_persons@);
        assert(available_persons.deep_view() =~= orig);
        lemma_balanced_init(path_groups_of(orig), 0u16);
        assert(path_stripped(available_persons.deep_view()).to_multiset().add(
            path_stripped(persons_path.deep_view()).to_multiset(),
        ) =~= path_stripped(orig).to_multiset());
        assert(path_names_of(available_persons.deep_view()).to_multiset().add(
            path_names_of(persons_path.deep_view()).to_multiset(),
        ) =~= path_names_of(orig).to_multiset());
    }
    while available_persons.len() != 0
        invariant
            path_distinct_names(available_persons.deep_view()),
            path_distinct_names(persons_path.deep_view()),
            path_names_disjoint(available_persons.deep_view(), persons_path.deep_view()),
            available_persons@.len() + persons_path@.len() == orig.len(),
            orig.len() <= u16::MAX,
            balanced(path_groups_of(available_persons.deep_view()), previous_group),
            previous_group == (if persons_path@.len() == 0 {
                0u16
            } else {
                persons_path.deep_view().last().group_number
            }),
            path_no_consecutive_groups(persons_path.deep_view()),
            path_stripped(available_persons.deep_view()).to_multiset().add(
                path_stripped(persons_path.deep_view()).to_multiset(),
            ) == path_stripped(orig).to_multiset(),
            path_names_of(available_persons.deep_view()).to_multiset().add(
                path_names_of(persons_path.deep_view()).to_multiset(),
            ) == path_names_of(orig).to_multiset(),
        decreases available_persons@.len(),
    {
        let ghost pool = available_persons.deep_view();
        let ghost gs = path_groups_of(pool);
        proof {
            assert(gs.len() == pool.len());
            lemma_balanced_pick_exists(gs, previous_group);
            let wi = choose|i: int| 0 <= i < gs.len() && gs[i] != previous_group;
            assert(gs[wi] == pool[wi].group_number);
            assert((available_persons.deep_view()[wi]).group_number != previous_group);
        }
        let largest_np = largest_non_prev_group(&available_persons, previous_group);
        let ghost m = largest_np.size as nat;
        proof {
            assert(path_groups_of(available_persons.deep_view()) == gs);
            assert(count_val(gs, largest_np.number) == m);
            assert(largest_np.number != previous_group);
            assert(forall|q: u16| q != previous_group ==> #[trigger] count_val(gs, q) <= m);
        }
        let mut candidates: Vec<PathPerson> = Vec::new();
        if (largest_np.size as usize) * 2 > available_persons.len() {
            let mut i: usize = 0;
            while i < available_persons.len()
                invariant
                    pool == available_persons.deep_view(),
                    available_persons@.len() == pool.len(),
                    i <= pool.len(),
                    candidates@.len() == count_val(
                        path_groups_of(pool.take(i as int)),
                        largest_np.number,
                    ),
                    forall|c: int|
                        0 <= c < candidates@.len() ==> exists|t: int|
                            0 <= t < pool.len() && #[trigger] candidates.deep_view()[c]
                                == pool[t],
                    forall|c: int|
                        0 <= c < candidates@.len() ==> (#[trigger] candidates.deep_view()[c]).group_number
                            == largest_np.number,
                decreases pool.len() - i,
            {
                let g = available_persons[i].group_number;
                proof {
                    assert(pool.take(i as int + 1) =~= pool.take(i as int).push(pool[i as int]));
                    lemma_path_groups_push(pool.take(i as int), pool[i as int]);
                    lemma_count_push(
                        path_groups_of(pool.take(i as int)),
                        largest_np.number,
                        pool[i as int].group_number,
                    );
                }
                if g == largest_np.number {
                    let ghost oldc = candidates.deep_view();
                    candidates.push(available_persons[i].clone());
                    proof {
                        assert(candidates.deep_view() =~= oldc.push(pool[i as int]));
                        assert(candidates.deep_view()[candidates@.len() - 1] == pool[i as int]);
                    }
                }
                i += 1;
            }
            proof {
                assert(pool.take(pool.len() as int) =~= pool);
                assert(candidates@.len() == count_val(gs, largest_np.number));
            }
        } else {
            let mut i: usize = 0;
            while i < available_persons.len()
                invariant
                    pool == available_persons.deep_view(),
                    available_persons@.len() == pool.len(),
                    i <= pool.len(),
                    candidates@.len() + count_val(
                        path_groups_of(pool.take(i as int)),
                        previous_group,
                    ) == i,
                    forall|c: int|
                        0 <= c < candidates@.len() ==> exists|t: int|
                            0 <= t < pool.len() && #[trigger] candidates.deep_view()[c]
                                == pool[t],
                    forall|c: int|
                        0 <= c < candidates@.len() ==> (#[trigger] candidates.deep_view()[c]).group_number
                            != previous_group,
                decreases pool.len() - i,
            {
                let g = available_persons[i].group_number;
                proof {
                    assert(pool.take(i as int + 1) =~= pool.take(i as int).push(pool[i as int]));
                    lemma_path_groups_push(pool.take(i as int), pool[i as int]);
                    lemma_count_push(
                        path_groups_of(pool.take(i as int)),
                        previous_group,
                        pool[i as int].group_number,
                    );
                }
                if g != previous_group {
                    let ghost oldc = candidates.deep_view();
                    candidates.push(available_persons[i].clone());
                    proof {
                        assert(candidates.deep_view() =~= oldc.push(pool[i as int]));
                        assert(candidates.deep_view()[candidates@.len() - 1] == pool[i as int]);
                    }
                }
                i += 1;
            }
            proof {
                assert(pool.take(pool.len() as int) =~= pool);
                assert(candidates@.len() + count_val(gs, previous_group) == pool.len());
                assert(count_val(gs, previous_group) < pool.len());
            }
        }
        let choice = pick_one(&candidates);
        let ghost ci = choose|i: int|
            0 <= i < candidates@.len() && cloned::<PathPerson>(#[trigger] candidates@[i], choice);
        let ghost j = choose|t: int| 0 <= t < pool.len() && pool[t] == choice@;
        proof {
            assert(choice == candidates@[ci]);
            assert(choice@ == candidates.deep_view()[ci]);
            let t0 = choose|t: int|
                0 <= t < pool.len() && #[trigger] candidates.deep_view()[ci] == pool[t];
            assert(pool[t0] == choice@);
            assert(0 <= j < pool.len() && pool[j] == choice@);
            assert(choice@.group_number != previous_group);
        }
        let ghost path = persons_path.deep_view();
        move_person(&mut available_persons, &mut persons_path, &choice);
        let ghost newpool = available_persons.deep_view();
        let ghost newpath = persons_path.deep_view();
        proof {
            lemma_path_move_bookkeeping(pool, newpool, path, newpath, choice@, j);
            assert(gs[j] == pool[j].group_number);
            assert(gs[j] != previous_group);
            if 2 * m > gs.len() {
                assert(choice@.group_number == largest_np.number);
                assert(count_val(gs, gs[j]) == m);
            }
            lemma_balanced_step(gs, previous_group, j, m);
            assert(balanced(path_groups_of(newpool), gs[j]));
            assert forall|i: int|
                0 <= i < newpath.len() implies (#[trigger] newpath[i]).group_number
                != path_prev_group_at(newpath, i) by {
                if i < path.len() {
                    assert(newpath[i] == path[i]);
                    if i > 0 {
                        assert(newpath[i - 1] == path[i - 1]);
                    }
                    assert(path[i].group_number != path_prev_group_at(path, i));
                } else {
                    assert(newpath[i] == choice@);
                    if i > 0 {
                        assert(newpath[i - 1] == path[i - 1]);
                    }
                }
            }
        }
        previous_group = choice.group_number;
        proof {
            assert(previous_group == choice@.group_number);
            assert(newpath.last() == choice@);
            assert(balanced(path_groups_of(available_persons.deep_view()), previous_group));
        }
    }
    proof {
        assert(path_stripped(persons_path.deep_view()).to_multiset() =~= path_stripped(
            orig,
        ).to_multiset());
        assert(path_names_of(persons_path.deep_view()).to_multiset() =~= path_names_of(
            orig,
        ).to_multiset());
    }
    persons_path
}

/// The participant at position `i`, given the name of the next participant
/// (wrapping around) as recipient.
pub open spec fn path_with_recipient(s: Seq<PathPersonV>, i: int) -> PathPersonV {
    PathPersonV { assigned_person_name: Some(s[(i + 1) % (s.len() as int)].name), ..s[i] }
}

/// Two sequences with the same multiset of stripped participants draw
/// their group values from one another: every group on one side is some
/// participant's group on the other.
proof fn lemma_path_same_multiset_same_groups(out: Seq<PathPersonV>, inp: Seq<PathPersonV>)
    requires
        path_stripped(out).to_multiset() == path_stripped(inp).to_multiset(),
    ensures
        forall|i: int|
            0 <= i < out.len() ==> exists|j: int|
                0 <= j < inp.len() && (#[trigger] out[i]).group_number == inp[j].group_number,
{
    assert forall|i: int| 0 <= i < out.len() implies exists|j: int|
        0 <= j < inp.len() && (#[trigger] out[i]).group_number == inp[j].group_number by {
        assert(path_stripped(out)[i] == path_strip_assignment(out[i]));
        assert(path_stripped(out).contains(path_stripped(out)[i]));
        assert(path_stripped(out).to_multiset().count(path_stripped(out)[i]) > 0);
        assert(path_stripped(inp).to_multiset().count(path_stripped(out)[i]) > 0);
        assert(path_stripped(inp).contains(path_stripped(out)[i]));
        let j = choose|j: int|
            0 <= j < path_stripped(inp).len() && path_stripped(inp)[j] == path_stripped(out)[i];
        assert(path_stripped(inp)[j] == path_strip_assignment(inp[j]));
        assert(out[i].group_number == inp[j].group_number);
    }
}

/// A built path whose participants come from a pool without the sentinel
/// as a real group is itself free of it.
proof fn lemma_path_attempt_nonzero(inp: Seq<PathPersonV>, out: Seq<PathPersonV>)
    requires
        path_nonzero_groups(inp),
        path_stripped(out).to_multiset() == path_stripped(inp).to_multiset(),
    ensures
        path_nonzero_groups(out),
{
    lemma_path_same_multiset_same_groups(out, inp);
    assert forall|i: int|
        0 <= i < out.len() implies (#[trigger] out[i]).group_number != 0u16 by {
        let j = choose|j: int|
            0 <= j < inp.len() && (#[trigger] out[i]).group_number == inp[j].group_number;
        assert(inp[j].group_number != 0u16);
    }
}

/// When exactly two groups occur in a feasible pool, every full
/// arrangement the builder produces is a valid path: the interior never
/// repeats a group, and the even two-way split forces the wrap-around
/// pair to differ.
proof fn lemma_path_two_group_attempt_valid(inp: Seq<PathPersonV>, out: Seq<PathPersonV>)
    requires
        feasible(path_groups_of(inp)),
        two_group_split(path_groups_of(inp)),
        inp.len() > 0,
        out.len() == inp.len(),
        path_no_consecutive_groups(out),
        path_stripped(out).to_multiset() == path_stripped(inp).to_multiset(),
    ensures
        path_valid(out),
{
    let gs_in = path_groups_of(inp);
    let gs_out = path_groups_of(out);
    let (a, b) = choose|a: u16, b: u16| covered_by(gs_in, a, b);
    lemma_path_same_multiset_same_groups(out, inp);
    assert forall|i: int|
        0 <= i < gs_out.len() implies gs_out[i] == a || gs_out[i] == b by {
        let j = choose|j: int|
            0 <= j < inp.len() && (#[trigger] out[i]).group_number == inp[j].group_number;
        assert(gs_out[i] == out[i].group_number);
        assert(gs_in[j] == inp[j].group_number);
    }
    assert forall|k: int|
        1 <= k < gs_out.len() implies (#[trigger] gs_out[k]) != gs_out[k - 1] by {
        assert(out[k].group_number != path_prev_group_at(out, k));
        assert(gs_out[k] == out[k].group_number);
        assert(gs_out[k - 1] == out[k - 1].group_number);
    }
    lemma_two_group_wrap(gs_in, gs_out, a, b);
    assert(out[0].group_number == gs_out[0]);
    assert(out[out.len() - 1].group_number == gs_out[gs_out.len() - 1]);
    assert(path_wrap_groups_differ(out));
}

/// Every participant's assigned recipient is the name of the next
/// participant, the last wrapping around to the first.
pub open spec fn path_links_assigned(s: Seq<PathPersonV>) -> bool {
    forall|i: int|
        0 <= i < s.len() ==> (#[trigger] s[i]).assigned_person_name == Some(
            s[(i + 1) % (s.len() as int)].name,
        )
}

/// Repeatedly builds candidate paths, up to MAX_ATTEMPTS times, until one
/// is a valid gift path; then assigns every participant the next one's
/// name as recipient. Returns None when the attempt budget runs out.
pub fn get_gift_path(from_persons: Vec<PathPerson>) -> (r: Option<Vec<PathPerson>>)
    requires
        from_persons@.len() > 2,
        from_persons@.len() <= u16::MAX,
        path_distinct_names(from_persons.deep_view()),
        path_nonzero_groups(from_persons.deep_view()),
        feasible(path_groups_of(from_persons.deep_view())),
    ensures
        (two_group_split(path_groups_of(from_persons.deep_view())) ==> r is Some),
        (r matches Some(path) ==> path.deep_view().len() == from_persons.deep_view().len()),
        (r matches Some(path) ==> path_distinct_names(path.deep_view())),
        (r matches Some(path) ==> path_stripped(path.deep_view()).to_multiset() == path_stripped(
            from_persons.deep_view(),
        ).to_multiset()),
        (r matches Some(path) ==> path_names_of(path.deep_view()).to_multiset() == path_names_of(
            from_persons.deep_view(),
        ).to_multiset()),
        (r matches Some(path) ==> path_links_assigned(path.deep_view())),
        (r matches Some(path) ==> path_valid(path.deep_view())),
{
    let mut attempt_count: u16 = 0;
    let mut have_valid_path = false;
    let mut mypath: Vec<PathPerson> = Vec::new();
    while !have_valid_path && attempt_count < MAX_ATTEMPTS
        invariant
            from_persons@.len() > 2,
            from_persons@.len() <= u16::MAX,
            from_persons.deep_view().len() == from_persons@.len(),
            path_distinct_names(from_persons.deep_view()),
            path_nonzero_groups(from_persons.deep_view()),
            feasible(path_groups_of(from_persons.deep_view())),
            attempt_count <= MAX_ATTEMPTS,
            (two_group_split(path_groups_of(from_persons.deep_view())) && attempt_count > 0)
                ==> have_valid_path,
            have_valid_path ==> mypath.deep_view().len() == from_persons.deep_view().len(),
            have_valid_path ==> path_distinct_names(mypath.deep_view()),
            have_valid_path ==> path_valid(mypath.deep_view()),
            have_valid_path ==> path_stripped(mypath.deep_view()).to_multiset() == path_stripped(
                from_persons.deep_view(),
            ).to_multiset(),
            have_valid_path ==> path_names_of(mypath.deep_view()).to_multiset() == path_names_of(
                from_persons.deep_view(),
            ).to_multiset(),
        decreases MAX_ATTEMPTS - attempt_count,
    {
        mypath = generate_path(&from_persons);
        proof {
            lemma_path_attempt_nonzero(from_persons.deep_view(), mypath.deep_view());
            if two_group_split(path_groups_of(from_persons.deep_view())) {
                lemma_path_two_group_attempt_valid(from_persons.deep_view(), mypath.deep_view());
            }
        }
        if is_gift_path_valid(&mypath) {
            have_valid_path = true;
        }
        attempt_count += 1;
    }
    if !have_valid_path {
        return None;
    }
    let ghost q = mypath.deep_view();
    let n = mypath.len();
    let last_person_name = mypath[n - 1].name.clone();
    let mut k: usize = 0;
    while k < n
        invariant
            n == mypath@.len(),
            0 < n <= usize::MAX,
            k <= n,
            path_distinct_names(q),
            q.len() == n,
            last_person_name@ == q[n - 1].name,
            forall|j: int| k <= j < n ==> #[trigger] mypath.deep_view()[j] == q[j],
            forall|j: int|
                0 <= j < k ==> #[trigger] mypath.deep_view()[j] == path_with_recipient(q, j),
        decreases n - k,
    {
        proof {
            assert(mypath.deep_view()[k as int] == q[k as int]);
            if k < n - 1 {
                assert(q[k as int].name != q[n - 1].name);
            }
            if k == n - 1 {
                assert((k as int + 1) % (n as int) == 0) by (nonlinear_arith)
                    requires
                        k == n - 1 && n > 0,
                ;
            } else {
                vstd::arithmetic::div_mod::lemma_small_mod((k + 1) as nat, n as nat);
            }
        }
        let next_name: String = if mypath[k].name == last_person_name {
            let p0 = &mypath[0];
            proof {
                if 0 < k {
                    assert(mypath.deep_view()[0] == path_with_recipient(q, 0));
                }
            }
            p0.name.clone()
        } else {
            proof {
                assert(mypath.deep_view()[k as int + 1] == q[k as int + 1]);
            }
            mypath[k + 1].name.clone()
        };
        proof {
            assert(next_name@ == q[((k as int + 1) % (n as int))].name);
        }
        let mut p = mypath[k].clone();
        proof {
            assert(p@ == q[k as int]);
        }
        p.assigned_person_name = Some(next_name);
        let ghost before = mypath.deep_view();
        mypath.set(k, p);
        proof {
            assert forall|j: int| 0 <= j < n && j != k implies #[trigger] mypath.deep_view()[j]
                == before[j] by {}
            assert(mypath@[k as int] == p);
            assert(mypath.deep_view()[k as int] == p@);
            assert(mypath.deep_view()[k as int] =~= path_with_recipient(q, k as int));
        }
        k += 1;
    }
    proof {
        let rv = mypath.deep_view();
        let ni = rv.len() as int;
        assert forall|i: int|
            0 <= i < ni implies (#[trigger] rv[i]).assigned_person_name == Some(
            rv[(i + 1) % ni].name,
        ) by {
            assert(rv[i] == path_with_recipient(q, i));
            assert(0 <= (i + 1) % ni < ni) by {
                vstd::arithmetic::div_mod::lemma_mod_bound(i + 1, ni);
            }
            assert(rv[(i + 1) % ni] == path_with_recipient(q, (i + 1) % ni));
        }
        assert forall|i: int|
            0 <= i < ni implies #[trigger] path_stripped(rv)[i] == path_stripped(q)[i] by {
            assert(rv[i] == path_with_recipient(q, i));
            assert(path_strip_assignment(rv[i]) =~= path_strip_assignment(q[i]));
        }
        assert(path_stripped(rv) =~= path_stripped(q));
        assert forall|i: int|
            0 <= i < ni implies #[trigger] path_names_of(rv)[i] == path_names_of(q)[i] by {
            assert(rv[i] == path_with_recipient(q, i));
        }
        assert(path_names_of(rv) =~= path_names_of(q));
        assert forall|i: int, j: int| 0 <= i < j < ni implies rv[i].name != rv[j].name by {
            assert(rv[i] == path_with_recipient(q, i));
            assert(rv[j] == path_with_recipient(q, j));
        }
        assert forall|i: int|
            0 <= i < ni implies (#[trigger] rv[i]).group_number != path_prev_group_at(
            rv,
            i,
        ) by {
            assert(rv[i] == path_with_recipient(q, i));
            if i > 0 {
                assert(rv[i - 1] == path_with_recipient(q, i - 1));
            }
            assert(q[i].group_number != path_prev_group_at(q, i));
        }
        assert(rv[0] == path_with_recipient(q, 0));
        assert(rv[ni - 1] == path_with_recipient(q, ni - 1));
        assert(path_wrap_groups_differ(rv));
    }
    Some(mypath)
}

} // verus!

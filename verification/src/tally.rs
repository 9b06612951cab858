use vstd::prelude::*;

use crate::group::Group;

verus! {

/// How many entries of `s` equal `v`.
pub open spec fn count_val<A>(s: Seq<A>, v: A) -> nat
    decreases s.len(),
{
    if s.len() == 0 {
        0
    } else {
        count_val(s.drop_last(), v) + (if s.last() == v {
            1nat
        } else {
            0nat
        })
    }
}

pub proof fn lemma_count_le_len<A>(s: Seq<A>, v: A)
    ensures
        count_val(s, v) <= s.len(),
    decreases s.len(),
{
    if s.len() > 0 {
        lemma_count_le_len(s.drop_last(), v);
    }
}

pub proof fn lemma_count_push<A>(s: Seq<A>, v: A, x: A)
    ensures
        count_val(s.push(x), v) == count_val(s, v) + (if x == v {
            1nat
        } else {
            0nat
        }),
{
    assert(s.push(x).drop_last() =~= s);
    assert(s.push(x).last() == x);
}

pub proof fn lemma_count_remove<A>(s: Seq<A>, i: int, v: A)
    requires
        0 <= i < s.len(),
    ensures
        count_val(s, v) == count_val(s.remove(i), v) + (if s[i] == v {
            1nat
        } else {
            0nat
        }),
    decreases s.len(),
{
    if i == s.len() - 1 {
        assert(s.remove(i) =~= s.drop_last());
    } else {
        let t = s.drop_last();
        lemma_count_remove(t, i, v);
        assert(s.remove(i).drop_last() =~= t.remove(i));
        assert(s.remove(i).last() == s.last());
    }
}

/// Two different values cannot together fill more than the whole sequence.
pub proof fn lemma_count_disjoint<A>(s: Seq<A>, a: A, b: A)
    requires
        a != b,
    ensures
        count_val(s, a) + count_val(s, b) <= s.len(),
    decreases s.len(),
{
    if s.len() > 0 {
        lemma_count_disjoint(s.drop_last(), a, b);
    }
}

/// A value occurs iff its count is positive.
pub proof fn lemma_count_pos<A>(s: Seq<A>, v: A)
    ensures
        (count_val(s, v) > 0) <==> (exists|i: int| 0 <= i < s.len() && s[i] == v),
    decreases s.len(),
{
    if s.len() > 0 {
        lemma_count_pos(s.drop_last(), v);
        if count_val(s, v) > 0 {
            if s.last() == v {
                assert(s[s.len() - 1] == v);
            } else {
                let i = choose|i: int| 0 <= i < s.len() - 1 && s.drop_last()[i] == v;
                assert(s[i] == v);
            }
        }
        if exists|i: int| 0 <= i < s.len() && s[i] == v {
            let i = choose|i: int| 0 <= i < s.len() && s[i] == v;
            if i < s.len() - 1 {
                assert(s.drop_last()[i] == v);
            }
        }
    }
}

/// A value that does not fill the whole sequence leaves room for another.
pub proof fn lemma_count_not_all<A>(s: Seq<A>, v: A)
    requires
        count_val(s, v) < s.len(),
    ensures
        exists|i: int| 0 <= i < s.len() && s[i] != v,
    decreases s.len(),
{
    if s.last() != v {
        assert(s[s.len() - 1] != v);
    } else {
        lemma_count_not_all(s.drop_last(), v);
        let i = choose|i: int| 0 <= i < s.len() - 1 && s.drop_last()[i] != v;
        assert(s[i] != v);
    }
}

/// `r` lists each value occurring in `values` exactly once with its count,
/// ordered by descending count and, among equal counts, ascending value.
pub open spec fn is_group_tally(values: Seq<u16>, r: Seq<(u16, usize)>) -> bool {
    &&& forall|i: int|
        0 <= i < r.len() ==> count_val(values, (#[trigger] r[i]).0) == r[i].1 && r[i].1 > 0
    &&& forall|i: int, j: int|
        0 <= i < j < r.len() ==> (#[trigger] r[i]).1 > (#[trigger] r[j]).1 || (r[i].1 == r[j].1
            && r[i].0 < r[j].0)
    &&& forall|v: u16|
        #[trigger] count_val(values, v) > 0 ==> exists|i: int|
            0 <= i < r.len() && (#[trigger] r[i]).0 == v
}

/// Relies on counter::Counter: collecting an iterator counts each value once
/// per occurrence, and most_common_ordered lists each distinct value with its
/// count, sorted by descending count and, among equal counts, ascending value.
#[verifier::external_body]
fn most_common_groups(values: &Vec<u16>) -> (r: Vec<(u16, usize)>)
    ensures
        is_group_tally(values@, r@),
{
    values.iter().cloned().collect::<counter::Counter<u16>>().most_common_ordered()
}

/// `g` is a group with the greatest count in `values`, and the smallest
/// group number among those sharing that count.
pub open spec fn is_largest_group(values: Seq<u16>, g: Group) -> bool {
    &&& count_val(values, g.number) == g.size
    &&& g.size > 0
    &&& forall|v: u16| #[trigger] count_val(values, v) <= g.size
    &&& forall|v: u16| #[trigger] count_val(values, v) == g.size ==> g.number <= v
}

/// The group with the greatest count among `values`; ties go to the
/// smallest group number.
pub fn largest_group_of(values: &Vec<u16>) -> (g: Group)
    requires
        values@.len() > 0,
        values@.len() <= u16::MAX,
    ensures
        is_largest_group(values@, g),
{
    let ghost vs = values@;
    let tally = most_common_groups(values);
    proof {
        lemma_count_pos(vs, vs[0]);
        assert(count_val(vs, vs[0]) > 0);
        assert(tally@.len() > 0);
    }
    let top = tally[0];
    proof {
        lemma_count_le_len(vs, top.0);
        assert forall|v: u16| #[trigger] count_val(vs, v) <= top.1 by {
            if count_val(vs, v) > 0 {
                let i = choose|i: int| 0 <= i < tally@.len() && (#[trigger] tally@[i]).0 == v;
                assert(tally@[i].1 == count_val(vs, v));
            }
        }
        assert forall|v: u16| #[trigger] count_val(vs, v) == top.1 implies top.0 <= v by {
            let i = choose|i: int| 0 <= i < tally@.len() && (#[trigger] tally@[i]).0 == v;
            assert(tally@[i].1 == count_val(vs, v));
        }
    }
    Group::new(top.0, top.1 as u16)
}

/// `r` lists each name occurring in `names` exactly once with its count; the
/// order is arbitrary.
pub open spec fn is_name_tally(names: Seq<Seq<char>>, r: Seq<(String, usize)>) -> bool {
    &&& forall|i: int|
        0 <= i < r.len() ==> count_val(names, (#[trigger] r[i]).0@) == r[i].1 && r[i].1 > 0
    &&& forall|i: int, j: int|
        0 <= i < j < r.len() ==> (#[trigger] r[i]).0@ != (#[trigger] r[j]).0@
    &&& forall|v: Seq<char>|
        #[trigger] count_val(names, v) > 0 ==> exists|i: int|
            0 <= i < r.len() && (#[trigger] r[i]).0@ == v
}

/// Relies on counter::Counter: collecting an iterator counts each name once
/// per occurrence; iterating the counter yields each distinct name with its
/// count, in no fixed order.
#[verifier::external_body]
fn name_counts(names: &Vec<String>) -> (r: Vec<(String, usize)>)
    ensures
        is_name_tally(names.deep_view(), r@),
{
    names
        .iter()
        .cloned()
        .collect::<counter::Counter<String>>()
        .iter()
        .map(|(k, v)| (k.clone(), *v))
        .collect()
}

/// The names that occur more than once in `names`, each listed once, in no
/// fixed order.
pub fn duplicate_names_of(names: &Vec<String>) -> (dups: Vec<String>)
    ensures
        forall|i: int|
            0 <= i < dups@.len() ==> count_val(names.deep_view(), (#[trigger] dups@[i])@) > 1,
        forall|v: Seq<char>|
            #[trigger] count_val(names.deep_view(), v) > 1 ==> exists|i: int|
                0 <= i < dups@.len() && (#[trigger] dups@[i])@ == v,
        forall|i: int, j: int|
            0 <= i < j < dups@.len() ==> (#[trigger] dups@[i])@ != (#[trigger] dups@[j])@,
{
    let tally = name_counts(names);
    let mut dups: Vec<String> = Vec::new();
    let mut k: usize = 0;
    while k < tally.len()
        invariant
            0 <= k <= tally@.len(),
            is_name_tally(names.deep_view(), tally@),
            forall|i: int|
                0 <= i < dups@.len() ==> count_val(names.deep_view(), (#[trigger] dups@[i])@) > 1,
            forall|i: int, j: int|
                0 <= i < j < dups@.len() ==> (#[trigger] dups@[i])@ != (#[trigger] dups@[j])@,
            forall|i: int|
                0 <= i < dups@.len() ==> exists|t: int|
                    0 <= t < k && (#[trigger] dups@[i])@ == (#[trigger] tally@[t]).0@,
            forall|t: int|
                0 <= t < k && (#[trigger] tally@[t]).1 > 1 ==> exists|i: int|
                    0 <= i < dups@.len() && (#[trigger] dups@[i])@ == tally@[t].0@,
        decreases tally@.len() - k,
    {
        let entry = &tally[k];
        if entry.1 > 1 {
            let ghost olddups = dups@;
            dups.push(entry.0.clone());
            assert(dups@[dups@.len() - 1]@ == tally@[k as int].0@);
            assert(forall|i: int| 0 <= i < olddups.len() ==> dups@[i] == olddups[i]);
            assert forall|i: int| 0 <= i < dups@.len() - 1 implies (#[trigger] dups@[i])@
                != dups@.last()@ by {
                let t = choose|t: int|
                    0 <= t < k && (#[trigger] dups@[i])@ == (#[trigger] tally@[t]).0@;
                assert(tally@[t].0@ != tally@[k as int].0@);
            }
        }
        k += 1;
    }
    proof {
        assert forall|v: Seq<char>| #[trigger] count_val(names.deep_view(), v) > 1 implies exists|
            i: int,
        | 0 <= i < dups@.len() && (#[trigger] dups@[i])@ == v by {
            let t = choose|t: int| 0 <= t < tally@.len() && (#[trigger] tally@[t]).0@ == v;
            assert(tally@[t].1 == count_val(names.deep_view(), v));
            assert(tally@[t].1 > 1);
        }
    }
    dups
}

/// Two positions holding the same value give that value a count of at
/// least two.
pub proof fn lemma_count_pair<A>(s: Seq<A>, i: int, j: int)
    requires
        0 <= i < j < s.len(),
        s[i] == s[j],
    ensures
        count_val(s, s[i]) >= 2,
    decreases s.len(),
{
    if j == s.len() - 1 {
        lemma_count_pos(s.drop_last(), s[i]);
        assert(s.drop_last()[i] == s[i]);
    } else {
        assert(s.drop_last()[i] == s[i]);
        assert(s.drop_last()[j] == s[j]);
        lemma_count_pair(s.drop_last(), i, j);
    }
}

/// In a sequence without repeats, no count exceeds one.
pub proof fn lemma_distinct_counts<A>(s: Seq<A>)
    requires
        forall|i: int, j: int| 0 <= i < j < s.len() ==> s[i] != s[j],
    ensures
        forall|v: A| #[trigger] count_val(s, v) <= 1,
    decreases s.len(),
{
    if s.len() > 0 {
        assert forall|i: int, j: int| 0 <= i < j < s.drop_last().len() implies s.drop_last()[i]
            != s.drop_last()[j] by {
            assert(s.drop_last()[i] == s[i]);
            assert(s.drop_last()[j] == s[j]);
        }
        lemma_distinct_counts(s.drop_last());
        assert forall|v: A| #[trigger] count_val(s, v) <= 1 by {
            assert(count_val(s.drop_last(), v) <= 1);
            if s.last() == v {
                lemma_count_pos(s.drop_last(), v);
                if count_val(s.drop_last(), v) > 0 {
                    let i = choose|i: int|
                        0 <= i < s.drop_last().len() && s.drop_last()[i] == v;
                    assert(s[i] == v);
                    assert(s[i] != s[s.len() - 1]);
                    assert(false);
                }
                assert(count_val(s.drop_last(), v) == 0);
            }
        }
    }
}

/// When every entry is one of two different values, their counts fill the
/// whole sequence.
pub proof fn lemma_count_two_covers<A>(s: Seq<A>, a: A, b: A)
    requires
        a != b,
        forall|i: int| 0 <= i < s.len() ==> s[i] == a || s[i] == b,
    ensures
        count_val(s, a) + count_val(s, b) == s.len(),
    decreases s.len(),
{
    if s.len() > 0 {
        assert forall|i: int|
            0 <= i < s.drop_last().len() implies s.drop_last()[i] == a || s.drop_last()[i]
            == b by {
            assert(s.drop_last()[i] == s[i]);
        }
        lemma_count_two_covers(s.drop_last(), a, b);
        assert(s[s.len() - 1] == a || s[s.len() - 1] == b);
    }
}

} // verus!

//! What holds of a directory however it was filled, and of the mode of a
//! list.

use crate::numbers::{count, leader, mode_of};
use crate::store::{
    added, departments, employees_of, has_department, index_of, lemma_added_well_formed,
    well_formed, Directory,
};
use crate::text::{lemma_name_order_total, name_order};
use vstd::prelude::*;
use vstd::relations::*;
use vstd::seq_lib::*;

verus! {

/// The directory that a sequence of `(employee, department)` additions
/// leaves behind, starting from an empty one.
pub open spec fn replayed(additions: Seq<(Seq<char>, Seq<char>)>) -> Directory
    decreases additions.len(),
{
    if additions.len() == 0 {
        Seq::empty()
    } else {
        added(replayed(additions.drop_last()), additions.last().0, additions.last().1)
    }
}

/// Whatever was added and in whatever order, the directory is well formed,
/// so the employees of every department stand in ascending lexicographic
/// order.
pub proof fn lemma_employees_always_sorted(
    additions: Seq<(Seq<char>, Seq<char>)>,
    department: Seq<char>,
)
    ensures
        well_formed(replayed(additions)),
        sorted_by(employees_of(replayed(additions), department), name_order()),
    decreases additions.len(),
{
    if additions.len() > 0 {
        lemma_employees_always_sorted(additions.drop_last(), department);
        lemma_added_well_formed(
            replayed(additions.drop_last()),
            additions.last().0,
            additions.last().1,
        );
    }
    let dir = replayed(additions);
    if has_department(dir, department) {
        assert(sorted_by(dir[index_of(dir, department)].1, name_order()));
    }
}

/// After an addition the directory has the departments it had and the one
/// that was added to, and no other.
pub proof fn lemma_added_departments(
    dir: Directory,
    employee: Seq<char>,
    department: Seq<char>,
    other: Seq<char>,
)
    ensures
        has_department(added(dir, employee, department), other) <==> (has_department(dir, other)
            || other == department),
{
    let after = added(dir, employee, department);
    if has_department(dir, department) {
        let i = index_of(dir, department);
        assert(after[i].0 == department);
        if has_department(dir, other) {
            let j = index_of(dir, other);
            assert(after[j].0 == other);
        }
        if has_department(after, other) {
            let j = index_of(after, other);
            assert(dir[j].0 == other);
        }
    } else {
        assert(after[dir.len() as int].0 == department);
        if has_department(dir, other) {
            let j = index_of(dir, other);
            assert(after[j].0 == other);
        }
        if has_department(after, other) && other != department {
            let j = index_of(after, other);
            assert(dir[j].0 == other);
        }
    }
}

/// An addition puts the employee into the department named, where it joins
/// those who were there, and leaves every other department as it was.
pub proof fn lemma_added_employees(
    dir: Directory,
    employee: Seq<char>,
    department: Seq<char>,
    other: Seq<char>,
)
    requires
        well_formed(dir),
    ensures
        other == department ==> employees_of(added(dir, employee, department), other).to_multiset()
            == employees_of(dir, other).to_multiset().insert(employee),
        other != department ==> employees_of(added(dir, employee, department), other)
            == employees_of(dir, other),
{
    let after = added(dir, employee, department);
    lemma_added_well_formed(dir, employee, department);
    lemma_added_departments(dir, employee, department, other);
    lemma_name_order_total();
    let at = if has_department(dir, department) {
        index_of(dir, department)
    } else {
        dir.len() as int
    };
    assert(after[at].0 == department);
    if other == department {
        assert(index_of(after, department) == at);
        let base = employees_of(dir, department);
        base.push(employee).lemma_sort_by_ensures(name_order());
        to_multiset_build(base, employee);
        if !has_department(dir, department) {
            assert(base.push(employee) =~= seq![employee]);
        }
    } else if has_department(dir, other) {
        let j = index_of(dir, other);
        assert(after[j] == dir[j]);
        assert(index_of(after, other) == j);
    }
}

/// A department is enumerated exactly if the directory has an entry for it.
pub proof fn lemma_departments_are_entries(dir: Directory, department: Seq<char>)
    ensures
        departments(dir).contains(department) <==> has_department(dir, department),
{
    if departments(dir).contains(department) {
        let i = choose|i: int| 0 <= i < departments(dir).len() && departments(dir)[i] == department;
        assert(dir[i].0 == department);
    }
    if has_department(dir, department) {
        let i = index_of(dir, department);
        assert(departments(dir)[i] == department);
    }
}

/// A department is enumerated exactly if at least one addition named it.
pub proof fn lemma_department_listed_iff_added(
    additions: Seq<(Seq<char>, Seq<char>)>,
    department: Seq<char>,
)
    ensures
        departments(replayed(additions)).contains(department) <==> exists|i: int|
            0 <= i < additions.len() && (#[trigger] additions[i]).1 == department,
    decreases additions.len(),
{
    let named = |a: Seq<(Seq<char>, Seq<char>)>|
        exists|i: int| 0 <= i < a.len() && (#[trigger] a[i]).1 == department;
    lemma_departments_are_entries(replayed(additions), department);
    if additions.len() > 0 {
        let earlier = additions.drop_last();
        lemma_department_listed_iff_added(earlier, department);
        lemma_departments_are_entries(replayed(earlier), department);
        lemma_added_departments(
            replayed(earlier),
            additions.last().0,
            additions.last().1,
            department,
        );
        if named(earlier) {
            let i = choose|i: int| 0 <= i < earlier.len() && (#[trigger] earlier[i]).1 == department;
            assert(additions[i].1 == department);
        }
        if additions.last().1 == department {
            assert(additions[additions.len() - 1].1 == department);
        }
        if named(additions) {
            let i = choose|i: int|
                0 <= i < additions.len() && (#[trigger] additions[i]).1 == department;
            if i < earlier.len() {
                assert(earlier[i].1 == department);
            }
        }
    }
}

/// Two lists with the same members, each as often, are the same once sorted.
pub proof fn lemma_sort_ignores_order(a: Seq<Seq<char>>, b: Seq<Seq<char>>)
    requires
        a.to_multiset() == b.to_multiset(),
    ensures
        a.sort_by(name_order()) == b.sort_by(name_order()),
{
    lemma_name_order_total();
    a.lemma_sort_by_ensures(name_order());
    b.lemma_sort_by_ensures(name_order());
    lemma_sorted_unique(a.sort_by(name_order()), b.sort_by(name_order()), name_order());
}

/// Two employees added to one department give the same directory in
/// either order; an employee added twice is listed twice.
pub proof fn lemma_add_order_irrelevant(
    dir: Directory,
    first: Seq<char>,
    second: Seq<char>,
    department: Seq<char>,
)
    requires
        well_formed(dir),
    ensures
        added(added(dir, first, department), second, department) == added(
            added(dir, second, department),
            first,
            department,
        ),
        employees_of(added(added(dir, first, department), second, department), department).len()
            == employees_of(dir, department).len() + 2,
{
    let ord = name_order();
    let one = added(dir, first, department);
    let other = added(dir, second, department);
    let base = employees_of(dir, department);
    lemma_added_well_formed(dir, first, department);
    lemma_added_well_formed(dir, second, department);
    lemma_name_order_total();
    // Where the department's entry stands, before and after.
    let at = if has_department(dir, department) {
        index_of(dir, department)
    } else {
        dir.len() as int
    };
    assert(one[at].0 == department);
    assert(other[at].0 == department);
    assert(index_of(one, department) == at);
    assert(index_of(other, department) == at);
    // Either way the entry holds what it held, and the two new names.
    base.push(first).lemma_sort_by_ensures(ord);
    base.push(second).lemma_sort_by_ensures(ord);
    to_multiset_build(base, first);
    to_multiset_build(base, second);
    if !has_department(dir, department) {
        assert(base.push(first) =~= seq![first]);
        assert(base.push(second) =~= seq![second]);
    }
    let a = one[at].1.push(second);
    let b = other[at].1.push(first);
    to_multiset_build(one[at].1, second);
    to_multiset_build(other[at].1, first);
    assert(a.to_multiset() =~= b.to_multiset());
    lemma_sort_ignores_order(a, b);
    let both = added(one, second, department);
    assert(both =~= added(other, first, department));
    // Nothing was dropped on the way.
    lemma_added_well_formed(one, second, department);
    assert(both[at].0 == department);
    assert(index_of(both, department) == at);
    a.lemma_sort_by_ensures(ord);
    to_multiset_len(a.sort_by(ord));
    to_multiset_len(a);
    to_multiset_len(one[at].1);
    to_multiset_len(base.push(first));
}

/// A value that does not occur in a list is counted zero times.
pub proof fn lemma_count_absent(s: Seq<i32>, v: i32)
    requires
        !s.contains(v),
    ensures
        count(s, v) == 0,
    decreases s.len(),
{
    if s.len() > 0 {
        assert(s.last() == s[s.len() - 1]);
        assert forall|i: int| 0 <= i < s.drop_last().len() implies s.drop_last()[i] != v by {
            assert(s[i] == s.drop_last()[i]);
        }
        lemma_count_absent(s.drop_last(), v);
    }
}

/// The mode of a list in which nothing occurs twice is its first element.
pub proof fn lemma_mode_of_distinct(s: Seq<i32>)
    requires
        s.len() > 0,
        s.no_duplicates(),
    ensures
        leader(s) == (s[0], 1nat),
        mode_of(s) == s[0],
    decreases s.len(),
{
    let earlier = s.drop_last();
    assert forall|i: int| 0 <= i < earlier.len() implies earlier[i] != s.last() by {
        assert(s[i] != s[s.len() - 1]);
    }
    lemma_count_absent(earlier, s.last());
    assert(count(s, s.last()) == 1);
    if s.len() > 1 {
        lemma_mode_of_distinct(earlier);
        assert(earlier[0] == s[0]);
    } else {
        assert(leader(earlier) == (0i32, 0nat));
    }
}

/// No value occurs more often than the mode, and the number that made the
/// mode the leader is the number of its occurrences.
pub proof fn lemma_mode_occurs_most(s: Seq<i32>, v: i32)
    requires
        s.len() > 0,
    ensures
        count(s, v) <= count(s, mode_of(s)),
        count(s, mode_of(s)) == leader(s).1,
        s.contains(mode_of(s)),
    decreases s.len(),
{
    let earlier = s.drop_last();
    let x = s.last();
    assert(count(s, x) == count(earlier, x) + 1);
    assert(v != x ==> count(s, v) == count(earlier, v));
    assert(count(s, mode_of(earlier)) >= count(earlier, mode_of(earlier)));
    assert(s[s.len() - 1] == x);
    if earlier.len() > 0 {
        lemma_mode_occurs_most(earlier, v);
        lemma_mode_occurs_most(earlier, x);
        if count(s, x) <= leader(earlier).1 {
            let i = choose|i: int| 0 <= i < earlier.len() && earlier[i] == mode_of(earlier);
            assert(s[i] == mode_of(earlier));
        }
    } else {
        assert(leader(earlier) == (0i32, 0nat));
        assert(count(earlier, v) == 0);
    }
}

/// The leader of a list that is not empty took the lead somewhere in it.
pub proof fn lemma_leader_took_the_lead(s: Seq<i32>)
    requires
        s.len() > 0,
    ensures
        exists|j: int|
            0 <= j < s.len() && s[j] == leader(s).0 && count(s.take(j + 1), #[trigger] s[j])
                == leader(s).1,
    decreases s.len(),
{
    let earlier = s.drop_last();
    let last = s.len() - 1;
    if count(s, s.last()) > leader(earlier).1 {
        assert(s.take(last + 1) =~= s);
        assert(s[last] == leader(s).0 && count(s.take(last + 1), s[last]) == leader(s).1);
    } else {
        assert(earlier.len() > 0) by {
            if earlier.len() == 0 {
                assert(leader(earlier) == (0i32, 0nat));
            }
        }
        lemma_leader_took_the_lead(earlier);
        let j = choose|j: int|
            0 <= j < earlier.len() && earlier[j] == leader(earlier).0 && count(
                earlier.take(j + 1),
                #[trigger] earlier[j],
            ) == leader(earlier).1;
        assert(s.take(j + 1) =~= earlier.take(j + 1));
        assert(s[j] == leader(s).0 && count(s.take(j + 1), s[j]) == leader(s).1);
    }
}

/// The number that made the leader never falls as more is read, and while
/// it stays the same the leader stays the same.
pub proof fn lemma_leader_only_rises(s: Seq<i32>, n: int)
    requires
        0 <= n <= s.len(),
    ensures
        leader(s.take(n)).1 <= leader(s).1,
        leader(s.take(n)).1 == leader(s).1 ==> leader(s.take(n)) == leader(s),
    decreases s.len(),
{
    if n == s.len() {
        assert(s.take(n) =~= s);
    } else {
        let earlier = s.drop_last();
        assert(earlier.take(n) =~= s.take(n));
        lemma_leader_only_rises(earlier, n);
    }
}

/// Among the values that occur most often, the mode is the one that got
/// there first: wherever a value reaches the highest number of occurrences,
/// the mode has reached it at that place or before.
pub proof fn lemma_mode_gets_there_first(s: Seq<i32>, i: int)
    requires
        0 <= i < s.len(),
        count(s.take(i + 1), s[i]) == count(s, mode_of(s)),
    ensures
        exists|j: int|
            0 <= j <= i && s[j] == mode_of(s) && count(s.take(j + 1), #[trigger] s[j]) == count(
                s,
                mode_of(s),
            ),
{
    let read = s.take(i + 1);
    lemma_mode_occurs_most(s, s[i]);
    lemma_leader_only_rises(s, i + 1);
    assert(read.last() == s[i]);
    assert(leader(read).1 >= count(read, read.last()));
    lemma_leader_took_the_lead(read);
    let j = choose|j: int|
        0 <= j < read.len() && read[j] == leader(read).0 && count(
            read.take(j + 1),
            #[trigger] read[j],
        ) == leader(read).1;
    assert(read.take(j + 1) =~= s.take(j + 1));
    assert(s[j] == mode_of(s) && count(s.take(j + 1), s[j]) == count(s, mode_of(s)));
}

} // verus!

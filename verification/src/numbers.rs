//! Mean, median and mode of a list of integers.

use crate::laws::lemma_mode_occurs_most;
use std::collections::HashMap;
use vstd::prelude::*;
use vstd::relations::*;
use vstd::seq_lib::*;
use vstd::std_specs::hash::*;

verus! {

/// The sum of `s`.
pub open spec fn sum(s: Seq<i32>) -> int
    decreases s.len(),
{
    if s.len() == 0 {
        0
    } else {
        sum(s.drop_last()) + s.last()
    }
}

/// `a` divided by a positive `b`, rounded towards zero.
pub open spec fn truncated_quotient(a: int, b: int) -> int {
    if a >= 0 {
        a / b
    } else {
        -((-a) / b)
    }
}

/// The mean of a sequence that is not empty, rounded towards zero.
pub open spec fn mean(s: Seq<i32>) -> int {
    truncated_quotient(sum(s), s.len() as int)
}

/// The usual order of the integers, as a relation.
pub open spec fn int_order() -> spec_fn(i32, i32) -> bool {
    |a: i32, b: i32| a <= b
}

/// The median of a sequence that is not empty: the central element of the
/// sorted sequence, or the mean of its two central elements.
pub open spec fn median_of(s: Seq<i32>) -> int {
    let sorted = s.sort_by(int_order());
    let middle = (s.len() + 1) / 2 - 1;
    if s.len() % 2 == 0 {
        mean(seq![sorted[middle], sorted[middle + 1]])
    } else {
        sorted[middle] as int
    }
}

/// How often `v` occurs in `s`.
pub open spec fn count(s: Seq<i32>, v: i32) -> nat
    decreases s.len(),
{
    if s.len() == 0 {
        0
    } else {
        count(s.drop_last(), v) + if s.last() == v {
            1nat
        } else {
            0nat
        }
    }
}

/// The leader after `s` has been read from left to right, and the number of
/// occurrences that made it the leader. A value takes the lead when, as it
/// is read, it has occurred more often than the leader had when it took the
/// lead.
pub open spec fn leader(s: Seq<i32>) -> (i32, nat)
    decreases s.len(),
{
    if s.len() == 0 {
        (0i32, 0nat)
    } else {
        let before = leader(s.drop_last());
        let occurrences = count(s, s.last());
        if occurrences > before.1 {
            (s.last(), occurrences)
        } else {
            before
        }
    }
}

/// The mode of `s`: the value that leads when all of `s` has been read.
pub open spec fn mode_of(s: Seq<i32>) -> i32 {
    leader(s).0
}

/// The sum of `n` integers lies between `n` times the least and `n` times
/// the greatest of their type.
proof fn lemma_sum_bounds(s: Seq<i32>)
    ensures
        s.len() * (-0x8000_0000) <= sum(s) <= s.len() * 0x7fff_ffff,
    decreases s.len(),
{
    if s.len() > 0 {
        lemma_sum_bounds(s.drop_last());
    }
}

/// The integer mean of `vector`, rounded towards zero.
pub fn average(vector: Vec<i32>) -> (r: i32)
    requires
        vector@.len() > 0,
    ensures
        r == mean(vector@),
{
    let mut total: i128 = 0;
    let mut i: usize = 0;
    while i < vector.len()
        invariant
            i <= vector.len(),
            total == sum(vector@.take(i as int)),
        decreases vector.len() - i,
    {
        proof {
            lemma_sum_bounds(vector@.take(i as int));
            assert(vector@.take(i + 1).drop_last() =~= vector@.take(i as int));
        }
        total = total + vector[i] as i128;
        i += 1;
    }
    proof {
        assert(vector@.take(i as int) =~= vector@);
        lemma_sum_bounds(vector@);
    }
    let n: i128 = vector.len() as i128;
    if total >= 0 {
        let q: i128 = total / n;
        proof {
            assert(q <= 0x7fff_ffff) by (nonlinear_arith)
                requires
                    q == (total as int) / (n as int),
                    0 <= total <= n * 0x7fff_ffff,
                    n > 0,
            ;
            assert(q >= 0) by (nonlinear_arith)
                requires
                    q == (total as int) / (n as int),
                    0 <= total,
                    n > 0,
            ;
        }
        q as i32
    } else {
        let q: i128 = (-total) / n;
        proof {
            assert(q <= 0x8000_0000) by (nonlinear_arith)
                requires
                    q == (-(total as int)) / (n as int),
                    0 <= -total <= n * 0x8000_0000,
                    n > 0,
            ;
            assert(q >= 0) by (nonlinear_arith)
                requires
                    q == (-(total as int)) / (n as int),
                    0 <= -total,
                    n > 0,
            ;
        }
        (-q) as i32
    }
}

/// The usual order of the integers is a total order.
pub proof fn lemma_int_order_total()
    ensures
        total_ordering(int_order()),
{
}

/// Puts `x` into the sorted `list`, keeping it sorted.
fn insert_sorted(list: &mut Vec<i32>, x: i32)
    requires
        sorted_by(old(list)@, int_order()),
    ensures
        sorted_by(final(list)@, int_order()),
        final(list)@.to_multiset() == old(list)@.to_multiset().insert(x),
{
    let mut k: usize = 0;
    while k < list.len() && list[k] <= x
        invariant
            k <= list.len(),
            *list == *old(list),
            forall|j: int| 0 <= j < k ==> list@[j] <= x,
        decreases list.len() - k,
    {
        k += 1;
    }
    proof {
        let s = list@;
        let r = s.insert(k as int, x);
        let ord = int_order();
        assert forall|i: int, j: int| 0 <= i < j < r.len() implies #[trigger] ord(r[i], r[j]) by {
            if j < k {
                assert(ord(s[i], s[j]));
            } else if j == k {
            } else if i == k {
                if j - 1 > k {
                    assert(ord(s[k as int], s[j - 1]));
                }
            } else if i < k {
                assert(ord(s[i], s[j - 1]));
            } else {
                assert(ord(s[i - 1], s[j - 1]));
            }
        }
        to_multiset_insert(s, k as int, x);
    }
    list.insert(k, x);
}

/// `vector` in ascending order.
pub fn sorted(vector: &Vec<i32>) -> (r: Vec<i32>)
    ensures
        r@ == vector@.sort_by(int_order()),
{
    let mut r: Vec<i32> = Vec::new();
    let mut i: usize = 0;
    proof {
        assert(vector@.take(0) =~= r@);
    }
    while i < vector.len()
        invariant
            i <= vector.len(),
            sorted_by(r@, int_order()),
            r@.to_multiset() == vector@.take(i as int).to_multiset(),
        decreases vector.len() - i,
    {
        proof {
            assert(vector@.take(i + 1) =~= vector@.take(i as int).push(vector@[i as int]));
            to_multiset_build(vector@.take(i as int), vector@[i as int]);
        }
        insert_sorted(&mut r, vector[i]);
        i += 1;
    }
    proof {
        assert(vector@.take(i as int) =~= vector@);
        lemma_int_order_total();
        vector@.lemma_sort_by_ensures(int_order());
        lemma_sorted_unique(r@, vector@.sort_by(int_order()), int_order());
    }
    r
}

/// The median of `vector`: the central element when sorted, or the integer
/// mean of the two central ones.
pub fn median(vector: Vec<i32>) -> (r: i32)
    requires
        vector@.len() > 0,
    ensures
        r == median_of(vector@),
{
    let len: usize = vector.len();
    let middle: usize = (len - 1) / 2;
    let ordered = sorted(&vector);
    proof {
        vector@.lemma_sort_by_ensures(int_order());
        to_multiset_len(vector@);
        to_multiset_len(ordered@);
    }
    if len % 2 == 0 {
        let pair = vec![ordered[middle], ordered[middle + 1]];
        proof {
            assert(pair@ =~= seq![ordered@[middle as int], ordered@[middle + 1]]);
        }
        average(pair)
    } else {
        ordered[middle]
    }
}

/// A value occurs in a sequence at most as often as the sequence is long.
proof fn lemma_count_bound(s: Seq<i32>, v: i32)
    ensures
        count(s, v) <= s.len(),
    decreases s.len(),
{
    if s.len() > 0 {
        lemma_count_bound(s.drop_last(), v);
    }
}

/// The mode of `vector`: the value that occurs most often. Among several
/// such values it is the one that reaches that number of occurrences first
/// when the list is read from left to right.
pub fn mode(vector: Vec<i32>) -> (r: i32)
    requires
        vector@.len() > 0,
    ensures
        r == mode_of(vector@),
        vector@.contains(r),
        forall|v: i32| count(vector@, v) <= count(vector@, r),
{
    broadcast use group_hash_axioms;

    let mut collector: HashMap<i32, usize> = HashMap::new();
    let mut best: i32 = 0;
    let mut max: usize = 0;
    let mut i: usize = 0;
    while i < vector.len()
        invariant
            i <= vector.len(),
            (best, max as nat) == leader(vector@.take(i as int)),
            forall|v: i32|
                collector@.contains_key(v) <==> #[trigger] count(vector@.take(i as int), v) > 0,
            forall|v: i32|
                collector@.contains_key(v) ==> collector@[v] == #[trigger] count(
                    vector@.take(i as int),
                    v,
                ),
        decreases vector.len() - i,
    {
        let value: i32 = vector[i];
        let ghost before = vector@.take(i as int);
        let ghost after = vector@.take(i + 1);
        proof {
            assert(after.drop_last() =~= before);
            lemma_count_bound(after, value);
        }
        let seen: usize = match collector.get(&value) {
            Some(n) => *n,
            None => 0,
        };
        proof {
            assert(seen == count(before, value));
            assert(count(after, value) == seen + 1);
        }
        let occurrences: usize = seen + 1;
        collector.insert(value, occurrences);
        if occurrences > max {
            best = value;
            max = occurrences;
        }
        proof {
            assert forall|v: i32| collector@.contains_key(v) <==> #[trigger] count(after, v)
                > 0 by {
                assert(collector@.contains_key(v) <==> (v == value || count(before, v) > 0));
            }
            assert forall|v: i32| collector@.contains_key(v) implies collector@[v]
                == #[trigger] count(after, v) by {
                if v != value {
                    assert(count(before, v) > 0);
                    assert(count(after, v) == count(before, v));
                }
            }
        }
        i += 1;
    }
    proof {
        assert(vector@.take(i as int) =~= vector@);
        assert forall|v: i32| count(vector@, v) <= count(vector@, best) by {
            lemma_mode_occurs_most(vector@, v);
        }
        lemma_mode_occurs_most(vector@, best);
    }
    best
}

} // verus!

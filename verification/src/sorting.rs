//! Sorting by a total order.

use vstd::prelude::*;
use vstd::relations::*;
use vstd::seq_lib::*;

verus! {

/// Values with a total order, in which no two different values are equivalent.
pub trait Ordered: Sized {
    /// `self` comes no later than `other`.
    spec fn before(self, other: Self) -> bool;

    proof fn total_order()
        ensures
            total_ordering(|a: Self, b: Self| a.before(b)),
    ;

    fn comes_before(&self, other: &Self) -> (b: bool)
        ensures
            b == self.before(*other),
    ;
}

/// The order of `T` as a relation.
pub open spec fn order_of<T: Ordered>() -> spec_fn(T, T) -> bool {
    |a: T, b: T| a.before(b)
}

/// The values of `s` in ascending order.
pub open spec fn sorted<T: Ordered>(s: Seq<T>) -> Seq<T> {
    s.sort_by(order_of::<T>())
}

/// Sorting keeps each value as often as it occurs, and puts them in order.
pub proof fn lemma_sorted<T: Ordered>(s: Seq<T>)
    ensures
        sorted(s).to_multiset() == s.to_multiset(),
        sorted(s).len() == s.len(),
        sorted_by(sorted(s), order_of::<T>()),
        forall|i: int, j: int|
            0 <= i < j < sorted(s).len() ==> (#[trigger] sorted(s)[i]).before(#[trigger] sorted(s)[j]),
{
    T::total_order();
    s.lemma_sort_by_ensures(order_of::<T>());
    s.to_multiset_ensures();
    sorted(s).to_multiset_ensures();
    assert(sorted_by(sorted(s), order_of::<T>()));
    assert forall|i: int, j: int| 0 <= i < j < sorted(s).len() implies (#[trigger] sorted(
        s,
    )[i]).before(#[trigger] sorted(s)[j]) by {
        assert(order_of::<T>()(sorted(s)[i], sorted(s)[j]));
    }
}

/// Whatever holds of all values holds of them after sorting.
pub proof fn lemma_sorted_contains<T: Ordered>(s: Seq<T>, i: int)
    requires
        0 <= i < sorted(s).len(),
    ensures
        s.contains(sorted(s)[i]),
{
    lemma_sorted(s);
    to_multiset_contains(s, sorted(s)[i]);
    to_multiset_contains(sorted(s), sorted(s)[i]);
}

/// No value is lost by sorting.
pub proof fn lemma_contains_sorted<T: Ordered>(s: Seq<T>, i: int)
    requires
        0 <= i < s.len(),
    ensures
        sorted(s).contains(s[i]),
{
    lemma_sorted(s);
    to_multiset_contains(s, s[i]);
    to_multiset_contains(sorted(s), s[i]);
}

/// A sequence in order is the sorted form of each of its rearrangements.
pub proof fn lemma_sorted_is<T: Ordered>(s: Seq<T>, r: Seq<T>)
    requires
        r.to_multiset() == s.to_multiset(),
        sorted_by(r, order_of::<T>()),
    ensures
        r == sorted(s),
{
    T::total_order();
    lemma_sorted(s);
    lemma_sorted_unique(r, sorted(s), order_of::<T>());
}

proof fn lemma_push_sorted<T: Ordered>(s: Seq<T>, x: T)
    requires
        sorted_by(s, order_of::<T>()),
        s.len() > 0 ==> s.last().before(x),
    ensures
        sorted_by(s.push(x), order_of::<T>()),
{
    T::total_order();
    let order = order_of::<T>();
    let p = s.push(x);
    assert forall|i: int, j: int| 0 <= i < j < p.len() implies #[trigger] order(p[i], p[j]) by {
        if j == s.len() {
            assert(p[i] == s[i]);
            if i < s.len() - 1 {
                assert(order(s[i], s.last()));
            }
            assert(order(s.last(), x));
        } else {
            assert(order(s[i], s[j]));
        }
    }
}

/// The values of two lists in order as one list in order.
fn merge<T: Ordered + Copy>(a: &Vec<T>, b: &Vec<T>) -> (m: Vec<T>)
    requires
        sorted_by(a@, order_of::<T>()),
        sorted_by(b@, order_of::<T>()),
    ensures
        sorted_by(m@, order_of::<T>()),
        m@.to_multiset() == (a@ + b@).to_multiset(),
{
    let ghost order = order_of::<T>();
    proof {
        T::total_order();
    }
    let mut m: Vec<T> = Vec::new();
    let mut i: usize = 0;
    let mut j: usize = 0;
    assert(a@.take(0) + b@.take(0) =~= Seq::<T>::empty());
    while i < a.len() || j < b.len()
        invariant
            i <= a.len(),
            j <= b.len(),
            order == order_of::<T>(),
            total_ordering(order),
            sorted_by(a@, order),
            sorted_by(b@, order),
            sorted_by(m@, order),
            m@.to_multiset() == (a@.take(i as int) + b@.take(j as int)).to_multiset(),
            m@.len() > 0 && i < a.len() ==> m@.last().before(a@[i as int]),
            m@.len() > 0 && j < b.len() ==> m@.last().before(b@[j as int]),
        decreases a.len() - i + b.len() - j,
    {
        let left = if i >= a.len() {
            false
        } else if j >= b.len() {
            true
        } else {
            a[i].comes_before(&b[j])
        };
        let ghost before = m@;
        if left {
            let x = a[i];
            proof {
                lemma_push_sorted(m@, x);
                to_multiset_build(m@, x);
                lemma_seq_union_to_multiset_commutative(a@.take(i as int), b@.take(j as int));
                lemma_seq_union_to_multiset_commutative(a@.take(i + 1), b@.take(j as int));
                assert(a@.take(i + 1) =~= a@.take(i as int).push(x));
                assert(b@.take(j as int) + a@.take(i + 1) =~= (b@.take(j as int) + a@.take(
                    i as int,
                )).push(x));
                to_multiset_build(b@.take(j as int) + a@.take(i as int), x);
                if i + 1 < a.len() {
                    assert(order(a@[i as int], a@[i + 1]));
                }
                assert(order(x, x));
            }
            m.push(x);
            i = i + 1;
        } else {
            let x = b[j];
            proof {
                if i < a.len() {
                    assert(order(a@[i as int], x) || order(x, a@[i as int]));
                    assert(order(x, a@[i as int]));
                }
                lemma_push_sorted(m@, x);
                to_multiset_build(m@, x);
                assert(b@.take(j + 1) =~= b@.take(j as int).push(x));
                assert(a@.take(i as int) + b@.take(j + 1) =~= (a@.take(i as int) + b@.take(
                    j as int,
                )).push(x));
                to_multiset_build(a@.take(i as int) + b@.take(j as int), x);
                if j + 1 < b.len() {
                    assert(order(b@[j as int], b@[j + 1]));
                }
            }
            m.push(x);
            j = j + 1;
        }
    }
    assert(a@.take(i as int) =~= a@);
    assert(b@.take(j as int) =~= b@);
    m
}

fn sort_part<T: Ordered + Copy>(v: &Vec<T>, from: usize, to: usize) -> (r: Vec<T>)
    requires
        from <= to <= v.len(),
    ensures
        sorted_by(r@, order_of::<T>()),
        r@.to_multiset() == v@.subrange(from as int, to as int).to_multiset(),
    decreases to - from,
{
    if to - from <= 1 {
        let mut r: Vec<T> = Vec::new();
        if from < to {
            r.push(v[from]);
        }
        assert(r@ =~= v@.subrange(from as int, to as int));
        r
    } else {
        let mid: usize = from + (to - from) / 2;
        let a = sort_part(v, from, mid);
        let b = sort_part(v, mid, to);
        proof {
            lemma_multiset_commutative(a@, b@);
            let x = v@.subrange(from as int, mid as int);
            let y = v@.subrange(mid as int, to as int);
            lemma_multiset_commutative(x, y);
            assert(x + y =~= v@.subrange(from as int, to as int));
        }
        merge(&a, &b)
    }
}

/// Sorts by splitting in halves and merging.
pub fn merge_sort<T: Ordered + Copy>(v: &Vec<T>) -> (r: Vec<T>)
    ensures
        r@ == sorted(v@),
{
    let r = sort_part(v, 0, v.len());
    proof {
        assert(v@.subrange(0, v@.len() as int) =~= v@);
        lemma_sorted_is(v@, r@);
    }
    r
}

} // verus!

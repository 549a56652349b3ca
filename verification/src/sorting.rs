//! Merge sort over any type that carries a total preorder.

use vstd::multiset::Multiset;
use vstd::prelude::*;
use vstd::seq_lib::{lemma_multiset_commutative, to_multiset_build};

verus! {

/// A type whose values can be put in ascending order.
///
/// `leq` has to relate every two values one way or the other and has to be
/// transitive; `at_most` decides it at run time.
pub trait Ranked: Copy {
    /// `self` may stand before `other` in an ascending sequence.
    spec fn leq(self, other: Self) -> bool;

    proof fn leq_total(a: Self, b: Self)
        ensures
            a.leq(b) || b.leq(a),
    ;

    proof fn leq_transitive(a: Self, b: Self, c: Self)
        requires
            a.leq(b),
            b.leq(c),
        ensures
            a.leq(c),
    ;

    fn at_most(&self, other: &Self) -> (r: bool)
        ensures
            r == self.leq(*other),
    ;
}

/// Whole numbers in their usual order.
impl Ranked for usize {
    open spec fn leq(self, other: usize) -> bool {
        self <= other
    }

    proof fn leq_total(a: usize, b: usize) {
    }

    proof fn leq_transitive(a: usize, b: usize, c: usize) {
    }

    fn at_most(&self, other: &usize) -> (r: bool) {
        *self <= *other
    }
}

/// No element of `s` has to stand before an earlier one.
pub open spec fn ascending<T: Ranked>(s: Seq<T>) -> bool {
    forall|i: int, j: int| 0 <= i < j < s.len() ==> (#[trigger] s[i]).leq(#[trigger] s[j])
}

/// A list without elements holds nothing.
pub proof fn lemma_nothing_in_empty<T>(s: Seq<T>)
    requires
        s.len() == 0,
    ensures
        s.to_multiset() == Multiset::<T>::empty(),
{
    broadcast use vstd::multiset::group_multiset_axioms;

    assert forall|a: T| s.to_multiset().count(a) == 0 by {
        vstd::seq_lib::to_multiset_contains(s, a);
    }
    assert(s.to_multiset() =~= Multiset::<T>::empty());
}

/// Merges two ascending lists into one.
pub fn merge<T: Ranked>(a: &Vec<T>, b: &Vec<T>) -> (out: Vec<T>)
    requires
        ascending(a@),
        ascending(b@),
    ensures
        ascending(out@),
        out@.to_multiset() == a@.to_multiset().add(b@.to_multiset()),
{
    let mut out: Vec<T> = Vec::new();
    let mut i: usize = 0;
    let mut j: usize = 0;
    proof {
        lemma_nothing_in_empty(a@.take(0));
        lemma_nothing_in_empty(b@.take(0));
        lemma_nothing_in_empty(out@);
        assert(out@.to_multiset() =~= a@.take(0).to_multiset().add(b@.take(0).to_multiset()));
    }
    while i < a.len() || j < b.len()
        invariant
            i <= a@.len(),
            j <= b@.len(),
            ascending(a@),
            ascending(b@),
            ascending(out@),
            out@.to_multiset() == a@.take(i as int).to_multiset().add(
                b@.take(j as int).to_multiset(),
            ),
            forall|k: int|
                0 <= k < out@.len() && i < a@.len() ==> (#[trigger] out@[k]).leq(a@[i as int]),
            forall|k: int|
                0 <= k < out@.len() && j < b@.len() ==> (#[trigger] out@[k]).leq(b@[j as int]),
        decreases a@.len() - i + b@.len() - j,
    {
        let from_a = if i >= a.len() {
            false
        } else if j >= b.len() {
            true
        } else {
            a[i].at_most(&b[j])
        };
        let ghost before = out@;
        if from_a {
            let x = a[i];
            out.push(x);
            proof {
                to_multiset_build(before, x);
                to_multiset_build(a@.take(i as int), x);
                assert(a@.take(i + 1) =~= a@.take(i as int).push(x));
                assert(out@.to_multiset() =~= a@.take(i + 1).to_multiset().add(
                    b@.take(j as int).to_multiset(),
                ));
                assert forall|k: int| 0 <= k < out@.len() && i + 1 < a@.len() implies (
                #[trigger] out@[k]).leq(a@[i + 1]) by {
                    assert(a@[i as int].leq(a@[i + 1]));
                    if k < before.len() {
                        assert(before[k].leq(a@[i as int]));
                        T::leq_transitive(out@[k], a@[i as int], a@[i + 1]);
                    }
                }
            }
            i += 1;
        } else {
            let x = b[j];
            out.push(x);
            proof {
                to_multiset_build(before, x);
                to_multiset_build(b@.take(j as int), x);
                assert(b@.take(j + 1) =~= b@.take(j as int).push(x));
                assert(out@.to_multiset() =~= a@.take(i as int).to_multiset().add(
                    b@.take(j + 1).to_multiset(),
                ));
                if i < a@.len() {
                    T::leq_total(a@[i as int], x);
                }
                assert forall|k: int| 0 <= k < out@.len() && j + 1 < b@.len() implies (
                #[trigger] out@[k]).leq(b@[j + 1]) by {
                    assert(b@[j as int].leq(b@[j + 1]));
                    if k < before.len() {
                        assert(before[k].leq(b@[j as int]));
                        T::leq_transitive(out@[k], b@[j as int], b@[j + 1]);
                    }
                }
            }
            j += 1;
        }
    }
    proof {
        assert(a@.take(i as int) =~= a@);
        assert(b@.take(j as int) =~= b@);
    }
    out
}

/// Sorts the elements `v[lo..hi]` into a new list.
fn sort_range<T: Ranked>(v: &Vec<T>, lo: usize, hi: usize) -> (out: Vec<T>)
    requires
        lo <= hi <= v@.len(),
    ensures
        ascending(out@),
        out@.to_multiset() == v@.subrange(lo as int, hi as int).to_multiset(),
    decreases hi - lo,
{
    if hi - lo <= 1 {
        let mut out: Vec<T> = Vec::new();
        if hi - lo == 1 {
            out.push(v[lo]);
        }
        assert(out@ =~= v@.subrange(lo as int, hi as int));
        out
    } else {
        let mid = lo + (hi - lo) / 2;
        let left = sort_range(v, lo, mid);
        let right = sort_range(v, mid, hi);
        proof {
            lemma_multiset_commutative(
                v@.subrange(lo as int, mid as int),
                v@.subrange(mid as int, hi as int),
            );
            assert(v@.subrange(lo as int, hi as int) =~= v@.subrange(lo as int, mid as int)
                + v@.subrange(mid as int, hi as int));
        }
        merge(&left, &right)
    }
}

/// Returns the elements of `v` in ascending order.
pub fn merge_sort<T: Ranked>(v: &Vec<T>) -> (out: Vec<T>)
    ensures
        ascending(out@),
        out@.to_multiset() == v@.to_multiset(),
        out@.len() == v@.len(),
{
    let out = sort_range(v, 0, v.len());
    proof {
        assert(v@.subrange(0, v@.len() as int) =~= v@);
        vstd::seq_lib::to_multiset_len(out@);
        vstd::seq_lib::to_multiset_len(v@);
    }
    out
}

/// An ascending list is fixed by what it holds, as long as `leq` tells
/// different values apart: two ascending lists with the same elements, each
/// as often in the one as in the other, are the same list.
pub proof fn lemma_ascending_unique<T: Ranked>(x: Seq<T>, y: Seq<T>)
    requires
        ascending(x),
        ascending(y),
        x.to_multiset() == y.to_multiset(),
        forall|a: T, b: T| #[trigger] a.leq(b) && b.leq(a) ==> a == b,
    ensures
        x == y,
    decreases x.len(),
{
    vstd::seq_lib::to_multiset_len(x);
    vstd::seq_lib::to_multiset_len(y);
    if x.len() > 0 {
        let xl = x.last();
        let yl = y.last();
        vstd::seq_lib::to_multiset_contains(x, yl);
        vstd::seq_lib::to_multiset_contains(y, yl);
        vstd::seq_lib::to_multiset_contains(x, xl);
        vstd::seq_lib::to_multiset_contains(y, xl);
        assert(y.contains(yl)) by {
            assert(y[y.len() - 1] == yl);
        }
        assert(x.contains(xl)) by {
            assert(x[x.len() - 1] == xl);
        }
        let i = choose|i: int| 0 <= i < x.len() && x[i] == yl;
        let j = choose|j: int| 0 <= j < y.len() && y[j] == xl;
        assert(yl.leq(xl)) by {
            if i < x.len() - 1 {
                assert(x[i].leq(x[x.len() - 1]));
            } else {
                T::leq_total(xl, xl);
            }
        }
        assert(xl.leq(yl)) by {
            if j < y.len() - 1 {
                assert(y[j].leq(y[y.len() - 1]));
            } else {
                T::leq_total(yl, yl);
            }
        }
        assert(xl == yl);
        vstd::seq_lib::to_multiset_remove(x, x.len() - 1);
        vstd::seq_lib::to_multiset_remove(y, y.len() - 1);
        assert(x.remove(x.len() - 1) =~= x.drop_last());
        assert(y.remove(y.len() - 1) =~= y.drop_last());
        lemma_ascending_unique(x.drop_last(), y.drop_last());
        assert(x =~= x.drop_last().push(xl));
        assert(y =~= y.drop_last().push(yl));
    } else {
        assert(x =~= y);
    }
}

} // verus!

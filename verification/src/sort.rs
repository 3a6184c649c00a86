//! Sorting a batch: a merge sort that moves the records and never copies
//! them.

use crate::record::{
    compare, lemma_precedes_antisymmetric, lemma_precedes_total, lemma_precedes_transitive,
    precedes, rank, sorted, OrderKey, Record,
};
use std::cmp::Ordering;
use vstd::multiset::Multiset;
use vstd::prelude::*;
use vstd::seq_lib::{lemma_multiset_commutative, to_multiset_build};

verus! {

broadcast use {vstd::multiset::group_multiset_axioms, vstd::seq_lib::group_to_multiset_ensures};

/// `a` may stand before `b` in a run that ascends, or that descends, under
/// `order`.
pub open spec fn in_order<P>(order: OrderKey, descending: bool, a: Record<P>, b: Record<P>) -> bool {
    if descending {
        precedes(order, b, a)
    } else {
        precedes(order, a, b)
    }
}

/// The run ascends, or descends, under `order`.
pub open spec fn sorted_toward<P>(s: Seq<Record<P>>, order: OrderKey, descending: bool) -> bool {
    forall|i: int, j: int|
        0 <= i < j < s.len() ==> in_order(order, descending, #[trigger] s[i], #[trigger] s[j])
}

/// Whether `a` may stand before `b` under `order`.
pub fn may_precede<P>(order: OrderKey, a: &Record<P>, b: &Record<P>) -> (r: bool)
    ensures
        r == precedes(order, *a, *b),
{
    proof {
        lemma_precedes_total(order, *a, *b);
    }
    match compare(order, b, a) {
        Ordering::Less => false,
        _ => true,
    }
}

/// Either direction ranks any two records, and carries over.
proof fn lemma_in_order<P>(
    order: OrderKey,
    descending: bool,
    a: Record<P>,
    b: Record<P>,
    c: Record<P>,
)
    ensures
        in_order(order, descending, a, b) || in_order(order, descending, b, a),
        in_order(order, descending, a, b) && in_order(order, descending, b, c) ==> in_order(
            order,
            descending,
            a,
            c,
        ),
{
    lemma_precedes_total(order, a, b);
    if in_order(order, descending, a, b) && in_order(order, descending, b, c) {
        if descending {
            lemma_precedes_transitive(order, c, b, a);
        } else {
            lemma_precedes_transitive(order, a, b, c);
        }
    }
}

/// Merges two runs that both ascend, or both descend, into one run that
/// goes the other way: the last records of the two runs are compared, and
/// the one that may stand behind the other moves over first.
fn merge_runs<P>(
    left: Vec<Record<P>>,
    right: Vec<Record<P>>,
    order: OrderKey,
    descending: bool,
) -> (out: Vec<Record<P>>)
    requires
        sorted_toward(left@, order, descending),
        sorted_toward(right@, order, descending),
    ensures
        sorted_toward(out@, order, !descending),
        out@.to_multiset() == left@.to_multiset().add(right@.to_multiset()),
{
    let ghost total = left@.to_multiset().add(right@.to_multiset());
    let mut left = left;
    let mut right = right;
    let mut out: Vec<Record<P>> = Vec::new();
    proof {
        assert(out@.to_multiset().add(left@.to_multiset()).add(right@.to_multiset()) =~= total);
    }
    while left.len() > 0 || right.len() > 0
        invariant
            sorted_toward(left@, order, descending),
            sorted_toward(right@, order, descending),
            sorted_toward(out@, order, !descending),
            forall|i: int, k: int|
                0 <= i < left@.len() && 0 <= k < out@.len() ==> in_order(
                    order,
                    descending,
                    #[trigger] left@[i],
                    #[trigger] out@[k],
                ),
            forall|i: int, k: int|
                0 <= i < right@.len() && 0 <= k < out@.len() ==> in_order(
                    order,
                    descending,
                    #[trigger] right@[i],
                    #[trigger] out@[k],
                ),
            out@.to_multiset().add(left@.to_multiset()).add(right@.to_multiset()) == total,
        decreases left@.len() + right@.len(),
    {
        let from_left: bool = if left.len() == 0 {
            false
        } else if right.len() == 0 {
            true
        } else {
            let l = &left[left.len() - 1];
            let r = &right[right.len() - 1];
            if descending {
                may_precede(order, l, r)
            } else {
                may_precede(order, r, l)
            }
        };
        let ghost before_left = left@;
        let ghost before_right = right@;
        let ghost before_out = out@;
        if from_left {
            let moved = left.pop().unwrap();
            out.push(moved);
            proof {
                lemma_moved(before_left, before_right, before_out, order, descending);
                assert(before_left =~= left@.push(moved));
                to_multiset_build(left@, moved);
                to_multiset_build(before_out, moved);
                assert(out@.to_multiset().add(left@.to_multiset()).add(right@.to_multiset())
                    =~= before_out.to_multiset().add(before_left.to_multiset()).add(
                    right@.to_multiset(),
                ));
            }
        } else {
            let moved = right.pop().unwrap();
            out.push(moved);
            proof {
                if before_left.len() > 0 {
                    lemma_in_order(
                        order,
                        descending,
                        before_left.last(),
                        before_right.last(),
                        before_right.last(),
                    );
                }
                lemma_moved(before_right, before_left, before_out, order, descending);
                assert(before_right =~= right@.push(moved));
                to_multiset_build(right@, moved);
                to_multiset_build(before_out, moved);
                assert(out@.to_multiset().add(left@.to_multiset()).add(right@.to_multiset())
                    =~= before_out.to_multiset().add(left@.to_multiset()).add(
                    before_right.to_multiset(),
                ));
            }
        }
    }
    proof {
        assert(left@.to_multiset() =~= Multiset::<Record<P>>::empty());
        assert(right@.to_multiset() =~= Multiset::<Record<P>>::empty());
        assert(out@.to_multiset().add(left@.to_multiset()).add(right@.to_multiset())
            =~= out@.to_multiset());
    }
    out
}

/// Moving the last record of `from` behind `out` keeps every run in its
/// direction, and keeps all that is left of `from` and of `other` in order
/// before all of `out`: the moved record is one that every record left may
/// stand before.
proof fn lemma_moved<P>(
    from: Seq<Record<P>>,
    other: Seq<Record<P>>,
    out: Seq<Record<P>>,
    order: OrderKey,
    descending: bool,
)
    requires
        from.len() > 0,
        sorted_toward(from, order, descending),
        sorted_toward(other, order, descending),
        sorted_toward(out, order, !descending),
        other.len() > 0 ==> in_order(order, descending, other.last(), from.last()),
        forall|i: int, k: int|
            0 <= i < from.len() && 0 <= k < out.len() ==> in_order(
                order,
                descending,
                #[trigger] from[i],
                #[trigger] out[k],
            ),
        forall|i: int, k: int|
            0 <= i < other.len() && 0 <= k < out.len() ==> in_order(
                order,
                descending,
                #[trigger] other[i],
                #[trigger] out[k],
            ),
    ensures
        sorted_toward(from.drop_last(), order, descending),
        sorted_toward(out.push(from.last()), order, !descending),
        forall|i: int, k: int|
            0 <= i < from.drop_last().len() && 0 <= k < out.push(from.last()).len() ==> in_order(
                order,
                descending,
                #[trigger] from.drop_last()[i],
                #[trigger] out.push(from.last())[k],
            ),
        forall|i: int, k: int|
            0 <= i < other.len() && 0 <= k < out.push(from.last()).len() ==> in_order(
                order,
                descending,
                #[trigger] other[i],
                #[trigger] out.push(from.last())[k],
            ),
{
    let moved = from.last();
    let rest = from.drop_last();
    let grown = out.push(moved);
    let n = from.len() - 1;
    assert forall|i: int, j: int| 0 <= i < j < rest.len() implies in_order(
        order,
        descending,
        #[trigger] rest[i],
        #[trigger] rest[j],
    ) by {
        assert(in_order(order, descending, from[i], from[j]));
    }
    assert forall|i: int, j: int| 0 <= i < j < grown.len() implies in_order(
        order,
        !descending,
        #[trigger] grown[i],
        #[trigger] grown[j],
    ) by {
        if j < out.len() {
            assert(in_order(order, !descending, out[i], out[j]));
        } else {
            assert(in_order(order, descending, from[n], out[i]));
        }
    }
    assert forall|i: int, k: int| 0 <= i < rest.len() && 0 <= k < grown.len() implies in_order(
        order,
        descending,
        #[trigger] rest[i],
        #[trigger] grown[k],
    ) by {
        if k < out.len() {
            assert(in_order(order, descending, from[i], out[k]));
        } else {
            assert(in_order(order, descending, from[i], from[n]));
        }
    }
    assert forall|i: int, k: int| 0 <= i < other.len() && 0 <= k < grown.len() implies in_order(
        order,
        descending,
        #[trigger] other[i],
        #[trigger] grown[k],
    ) by {
        if k < out.len() {
            assert(in_order(order, descending, other[i], out[k]));
        } else {
            let m = other.len() - 1;
            if i < m {
                assert(in_order(order, descending, other[i], other[m]));
                lemma_in_order(order, descending, other[i], other[m], moved);
            }
        }
    }
}

/// Sorts the records so that they ascend, or descend, under `order`.
fn sort_toward<P>(records: Vec<Record<P>>, order: OrderKey, descending: bool) -> (out: Vec<
    Record<P>,
>)
    ensures
        sorted_toward(out@, order, descending),
        out@.to_multiset() == records@.to_multiset(),
    decreases records@.len(),
{
    if records.len() <= 1 {
        return records;
    }
    let mut left = records;
    let half: usize = left.len() / 2;
    let right = left.split_off(half);
    proof {
        assert(records@ =~= left@ + right@);
        lemma_multiset_commutative(left@, right@);
    }
    let first = sort_toward(left, order, !descending);
    let second = sort_toward(right, order, !descending);
    merge_runs(first, second, order, !descending)
}

/// Sorts the records of a batch under `order`.  The records that come back
/// are the records that went in, each as often as before, and every one of
/// them may stand before all that follow it.
pub fn sort_records<P>(records: Vec<Record<P>>, order: OrderKey) -> (out: Vec<Record<P>>)
    ensures
        sorted(out@, order),
        out@.to_multiset() == records@.to_multiset(),
        out@.len() == records@.len(),
{
    let out = sort_toward(records, order, false);
    proof {
        out@.to_multiset_ensures();
        records@.to_multiset_ensures();
        assert forall|i: int, j: int| 0 <= i < j < out@.len() implies precedes(
            order,
            #[trigger] out@[i],
            #[trigger] out@[j],
        ) by {
            assert(in_order(order, false, out@[i], out@[j]));
        }
    }
    out
}

/// What `order` reads of a record: the number it ranks by, and the symbol.
pub open spec fn key_of<P>(order: OrderKey, r: Record<P>) -> (int, Seq<char>) {
    (rank(order, r), r.symbol@)
}

/// What `order` reads of each record of a run, in order.
pub open spec fn keys_of<P>(order: OrderKey, s: Seq<Record<P>>) -> Seq<(int, Seq<char>)> {
    Seq::new(s.len(), |i: int| key_of(order, s[i]))
}

/// The order of a sorted batch is decided by what the batch holds and by
/// nothing else: however the same records arrived, and however records
/// that agree in rank and symbol came to stand among themselves, place by
/// place the sorted runs agree in rank and symbol.
pub proof fn lemma_sorted_keys_unique<P>(a: Seq<Record<P>>, b: Seq<Record<P>>, order: OrderKey)
    requires
        sorted(a, order),
        sorted(b, order),
        a.to_multiset() == b.to_multiset(),
    ensures
        keys_of(order, a) == keys_of(order, b),
    decreases a.len(),
{
    a.to_multiset_ensures();
    b.to_multiset_ensures();
    if a.len() == 0 {
        assert(keys_of(order, a) =~= keys_of(order, b));
    } else {
        let n = a.len() - 1;
        let x = a[n];
        let y = b[n];
        assert(a.contains(x));
        assert(b.contains(y));
        assert(a.to_multiset().count(x) > 0);
        assert(b.to_multiset().count(y) > 0);
        assert(b.contains(x));
        assert(a.contains(y));
        let j = choose|j: int| 0 <= j < b.len() && b[j] == x;
        let i = choose|i: int| 0 <= i < a.len() && a[i] == y;
        lemma_precedes_total(order, x, x);
        lemma_precedes_total(order, y, y);
        assert(precedes(order, x, y)) by {
            if j < n {
                assert(precedes(order, b[j], b[n]));
            }
        }
        assert(precedes(order, y, x)) by {
            if i < n {
                assert(precedes(order, a[i], a[n]));
            }
        }
        lemma_precedes_antisymmetric(order, x, y);
        let a2 = a.drop_last();
        let b2 = b.remove(j);
        assert(a =~= a2.push(x));
        to_multiset_build(a2, x);
        vstd::seq_lib::to_multiset_remove(b, j);
        assert(a2.to_multiset() =~= a.to_multiset().remove(x));
        assert(a2.to_multiset() =~= b2.to_multiset());
        assert forall|p: int, q: int| 0 <= p < q < a2.len() implies precedes(
            order,
            #[trigger] a2[p],
            #[trigger] a2[q],
        ) by {
            assert(precedes(order, a[p], a[q]));
        }
        assert forall|p: int, q: int| 0 <= p < q < b2.len() implies precedes(
            order,
            #[trigger] b2[p],
            #[trigger] b2[q],
        ) by {
            let p0 = if p < j {
                p
            } else {
                p + 1
            };
            let q0 = if q < j {
                q
            } else {
                q + 1
            };
            assert(b2[p] == b[p0] && b2[q] == b[q0]);
            assert(precedes(order, b[p0], b[q0]));
        }
        lemma_sorted_keys_unique(a2, b2, order);
        assert(keys_of(order, a2).len() == keys_of(order, b2).len());
        assert forall|k: int| 0 <= k < n implies key_of(order, b[k]) == key_of(order, a[k]) by {
            assert(keys_of(order, a2)[k] == keys_of(order, b2)[k]);
            assert(a2[k] == a[k]);
            if k >= j {
                assert(b2[k] == b[k + 1]);
                lemma_tail_keys(b, order, j, k);
                lemma_tail_keys(b, order, j, k + 1);
            } else {
                assert(b2[k] == b[k]);
            }
        }
        assert(keys_of(order, a) =~= keys_of(order, b));
    }
}

/// In a sorted run, a record that agrees in rank and symbol with the last
/// agrees in both with every record behind it.
proof fn lemma_tail_keys<P>(b: Seq<Record<P>>, order: OrderKey, j: int, k: int)
    requires
        sorted(b, order),
        0 <= j <= k < b.len(),
        key_of(order, b[j]) == key_of(order, b.last()),
    ensures
        key_of(order, b[k]) == key_of(order, b[j]),
{
    let n = b.len() - 1;
    lemma_precedes_total(order, b[k], b[k]);
    assert(precedes(order, b[j], b[k])) by {
        if j < k {
            assert(precedes(order, b[j], b[k]));
        }
    }
    assert(precedes(order, b[k], b[n])) by {
        if k < n {
            assert(precedes(order, b[k], b[n]));
        }
    }
    assert(precedes(order, b[k], b[j]));
    lemma_precedes_antisymmetric(order, b[j], b[k]);
}

} // verus!

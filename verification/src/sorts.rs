//! Comparison-based sorting routines over `i64` vectors.
//!
//! Each sort rearranges its input in place (or rebuilds it, for merge sort)
//! into non-decreasing order while keeping exactly the same collection of
//! elements, stated as multiset equality.

use vstd::prelude::*;
use vstd::multiset::Multiset;
use crate::binary_tree::lemma_concat_contains;

verus! {

/// A sequence is sorted in non-decreasing order.
pub open spec fn sorted(s: Seq<i64>) -> bool {
    forall|i: int, j: int| 0 <= i < j < s.len() ==> s[i] <= s[j]
}

/// Swapping two slots of a sequence keeps its multiset of elements.
proof fn lemma_swap_multiset(s: Seq<i64>, i: int, j: int)
    requires
        0 <= i < s.len(),
        0 <= j < s.len(),
    ensures
        s.update(i, s[j]).update(j, s[i]).to_multiset() == s.to_multiset(),
{
    broadcast use vstd::seq_lib::group_to_multiset_ensures;
    broadcast use vstd::seq_lib::to_multiset_update;
    broadcast use vstd::multiset::group_multiset_axioms;

    if i == j {
        assert(s.update(i, s[j]).update(j, s[i]) =~= s);
    } else {
        let s1 = s.update(i, s[j]);
        assert(s.contains(s[i]));
        assert(s.contains(s[j]));
        assert(s1[j] == s[j]);
        assert(s1.to_multiset() == s.to_multiset().insert(s[j]).remove(s[i]));
        assert(s1.update(j, s[i]).to_multiset() == s1.to_multiset().insert(s[i]).remove(s1[j]));
        assert(s.to_multiset().insert(s[j]).remove(s[i]).insert(s[i]).remove(s[j])
            =~= s.to_multiset());
    }
}

/// Exchange the elements at positions `i` and `j`.
fn swap(items: &mut Vec<i64>, i: usize, j: usize)
    requires
        i < old(items)@.len(),
        j < old(items)@.len(),
    ensures
        final(items)@ == old(items)@.update(i as int, old(items)@[j as int]).update(
            j as int,
            old(items)@[i as int],
        ),
        final(items)@.to_multiset() == old(items)@.to_multiset(),
        final(items)@.len() == old(items)@.len(),
{
    let a = items[i];
    let b = items[j];
    items.set(i, b);
    items.set(j, a);
    proof {
        lemma_swap_multiset(old(items)@, i as int, j as int);
    }
}

/// Sort by repeatedly selecting the least remaining element and moving it to
/// the front of the unsorted tail.
pub fn selection_sort(items: &mut Vec<i64>)
    ensures
        sorted(final(items)@),
        final(items)@.to_multiset() == old(items)@.to_multiset(),
        final(items)@.len() == old(items)@.len(),
{
    let n = items.len();
    let mut i: usize = 0;
    while i < n
        invariant
            n == items@.len(),
            0 <= i <= n,
            items@.to_multiset() == old(items)@.to_multiset(),
            forall|p: int, q: int| 0 <= p < q < i ==> items@[p] <= items@[q],
            forall|p: int, q: int| 0 <= p < i <= q < n ==> items@[p] <= items@[q],
        decreases n - i,
    {
        let mut m: usize = i;
        let mut k: usize = i + 1;
        while k < n
            invariant
                n == items@.len(),
                i < n,
                i <= m < n,
                i + 1 <= k <= n,
                forall|p: int| i <= p < k ==> items@[m as int] <= items@[p],
            decreases n - k,
        {
            if items[k] < items[m] {
                m = k;
            }
            k = k + 1;
        }
        swap(items, i, m);
        i = i + 1;
    }
}

/// Sort by growing a sorted prefix: each new element is walked backwards
/// through the prefix until it sits in place.
pub fn insertion_sort(items: &mut Vec<i64>)
    ensures
        sorted(final(items)@),
        final(items)@.to_multiset() == old(items)@.to_multiset(),
        final(items)@.len() == old(items)@.len(),
{
    let n = items.len();
    if n == 0 {
        return ;
    }
    let mut i: usize = 1;
    while i < n
        invariant
            n == items@.len(),
            1 <= i <= n,
            items@.to_multiset() == old(items)@.to_multiset(),
            forall|p: int, q: int| 0 <= p < q < i ==> items@[p] <= items@[q],
        decreases n - i,
    {
        let mut j: usize = i;
        while j >= 1 && items[j] < items[j - 1]
            invariant
                n == items@.len(),
                0 <= j <= i < n,
                items@.to_multiset() == old(items)@.to_multiset(),
                forall|p: int, q: int| 0 <= p < q <= i && q != j ==> items@[p] <= items@[q],
            decreases j,
        {
            swap(items, j - 1, j);
            j = j - 1;
        }
        i = i + 1;
    }
}

/// Rearrange `items[lo..hi]` around the value in its last slot: everything
/// strictly below that value ends up on the left, the value itself lands at
/// the returned index, and everything else follows it.
fn partition(items: &mut Vec<i64>, lo: usize, hi: usize) -> (p: usize)
    requires
        lo < hi <= old(items)@.len(),
    ensures
        lo <= p < hi,
        final(items)@.len() == old(items)@.len(),
        forall|k: int| 0 <= k < lo || hi <= k < old(items)@.len() ==> final(items)@[k] == old(
            items,
        )@[k],
        final(items)@.subrange(lo as int, hi as int).to_multiset() == old(items)@.subrange(
            lo as int,
            hi as int,
        ).to_multiset(),
        forall|k: int| lo <= k < p ==> final(items)@[k] < final(items)@[p as int],
        forall|k: int| p < k < hi ==> final(items)@[k] >= final(items)@[p as int],
{
    let pivot: usize = hi - 1;
    let ghost pivot_val = old(items)@[pivot as int];
    let mut first_high: usize = lo;
    let mut i: usize = lo;
    while i < hi
        invariant
            unchanged_outside(old(items)@, items@, lo as int, hi as int),
            lo <= first_high <= i <= hi,
            pivot == hi - 1,
            lo < hi <= items@.len(),
            items@.len() == old(items)@.len(),
            items@[pivot as int] == pivot_val,
            items@.subrange(lo as int, hi as int).to_multiset() == old(items)@.subrange(
                lo as int,
                hi as int,
            ).to_multiset(),
            first_high <= pivot,
            forall|k: int| lo <= k < first_high ==> items@[k] < pivot_val,
            forall|k: int| first_high <= k < i && k < pivot ==> items@[k] >= pivot_val,
        decreases hi - i,
    {
        if items[i] < items[pivot] {
            let ghost before = items@;
            swap(items, i, first_high);
            proof {
                lemma_swap_subrange_multiset(before, items@, lo as int, hi as int, i as int, first_high as int);
            }
            first_high = first_high + 1;
        }
        i = i + 1;
    }
    let ghost before = items@;
    swap(items, pivot, first_high);
    proof {
        lemma_swap_subrange_multiset(before, items@, lo as int, hi as int, pivot as int, first_high as int);
    }
    first_high
}

/// The part of a sequence outside `[lo, hi)` is the same in `a` and `b`.
spec fn unchanged_outside(a: Seq<i64>, b: Seq<i64>, lo: int, hi: int) -> bool {
    &&& a.len() == b.len()
    &&& forall|k: int| 0 <= k < lo || hi <= k < a.len() ==> a[k] == b[k]
}

/// A swap of two slots inside `[lo, hi)` keeps the multiset of that window
/// (and a window equal index-by-index has an equal multiset).
proof fn lemma_swap_subrange_multiset(a: Seq<i64>, b: Seq<i64>, lo: int, hi: int, i: int, j: int)
    requires
        a.len() == b.len(),
        0 <= lo <= i < hi <= a.len(),
        lo <= j < hi,
        b == a.update(i, a[j]).update(j, a[i]),
    ensures
        b.subrange(lo, hi).to_multiset() == a.subrange(lo, hi).to_multiset(),
{
    let sa = a.subrange(lo, hi);
    let sb = b.subrange(lo, hi);
    assert(sb =~= sa.update(i - lo, sa[j - lo]).update(j - lo, sa[i - lo]));
    lemma_swap_multiset(sa, i - lo, j - lo);
}

/// Quicksort on the window `items[lo..hi]`: partition around a pivot, then
/// recurse on each side.
fn quick_sort_range(items: &mut Vec<i64>, lo: usize, hi: usize)
    requires
        lo <= hi <= old(items)@.len(),
    ensures
        final(items)@.len() == old(items)@.len(),
        forall|k: int| 0 <= k < lo || hi <= k < old(items)@.len() ==> final(items)@[k] == old(
            items,
        )@[k],
        final(items)@.subrange(lo as int, hi as int).to_multiset() == old(items)@.subrange(
            lo as int,
            hi as int,
        ).to_multiset(),
        forall|p: int, q: int| lo <= p < q < hi ==> final(items)@[p] <= final(items)@[q],
    decreases hi - lo,
{
    broadcast use vstd::seq_lib::group_to_multiset_ensures;

    if hi - lo > 1 {
        let ghost at_entry = items@;
        let p = partition(items, lo, hi);
        let ghost after_part = items@;
        quick_sort_range(items, lo, p);
        let ghost after_left = items@;
        quick_sort_range(items, p + 1, hi);
        proof {
            let now = items@;
            // the pivot slot sat outside both recursive windows
            assert(now[p as int] == after_part[p as int]);
            // each window kept its multiset through the later calls
            assert(now.subrange(lo as int, p as int) =~= after_left.subrange(lo as int, p as int));
            assert(now.subrange(lo as int, p as int).to_multiset() == after_part.subrange(
                lo as int,
                p as int,
            ).to_multiset());
            assert(after_left.subrange(p + 1, hi as int) =~= after_part.subrange(p + 1, hi as int));
            assert(now.subrange(p + 1, hi as int).to_multiset() == after_part.subrange(
                p + 1,
                hi as int,
            ).to_multiset());
            // bounds transfer through multiset equality
            assert forall|k: int| lo <= k < p implies now[k] < now[p as int] by {
                let w = now.subrange(lo as int, p as int);
                let wp = after_part.subrange(lo as int, p as int);
                assert(w[k - lo] == now[k]);
                assert(w.contains(now[k]));
                assert(w.to_multiset().count(now[k]) > 0);
                assert(wp.to_multiset().count(now[k]) > 0);
                assert(wp.contains(now[k]));
                let k0 = choose|k0: int| 0 <= k0 < wp.len() && wp[k0] == now[k];
                assert(after_part[lo + k0] == now[k]);
            }
            assert forall|k: int| p < k < hi implies now[k] >= now[p as int] by {
                let w = now.subrange(p + 1, hi as int);
                assert(w[k - p - 1] == now[k]);
                assert(w.contains(now[k]));
                let wp = after_part.subrange(p + 1, hi as int);
                assert(w.to_multiset().count(now[k]) > 0);
                assert(wp.to_multiset().count(now[k]) > 0);
                assert(wp.contains(now[k]));
                let k0 = choose|k0: int| 0 <= k0 < wp.len() && wp[k0] == now[k];
                assert(after_part[p + 1 + k0] == now[k]);
            }
            // stitch the three windows back into one
            assert(now.subrange(lo as int, hi as int) =~= now.subrange(lo as int, p as int) + seq![
                now[p as int],
            ] + now.subrange(p + 1, hi as int));
            assert(after_part.subrange(lo as int, hi as int) =~= after_part.subrange(
                lo as int,
                p as int,
            ) + seq![after_part[p as int]] + after_part.subrange(p + 1, hi as int));
            lemma_concat_multisets(
                now.subrange(lo as int, p as int),
                seq![now[p as int]],
                now.subrange(p + 1, hi as int),
            );
            lemma_concat_multisets(
                after_part.subrange(lo as int, p as int),
                seq![after_part[p as int]],
                after_part.subrange(p + 1, hi as int),
            );
        }
    }
}

/// The multiset of a three-way concatenation is the sum of the parts.
proof fn lemma_concat_multisets(a: Seq<i64>, b: Seq<i64>, c: Seq<i64>)
    ensures
        (a + b + c).to_multiset() == a.to_multiset().add(b.to_multiset()).add(c.to_multiset()),
{
    broadcast use vstd::seq_lib::group_to_multiset_ensures;
    broadcast use vstd::multiset::group_multiset_axioms;

    vstd::seq_lib::lemma_multiset_commutative(a, b);
    vstd::seq_lib::lemma_multiset_commutative(a + b, c);
    assert((a + b + c).to_multiset() =~= a.to_multiset().add(b.to_multiset()).add(
        c.to_multiset(),
    ));
}

/// Quicksort: partition around a pivot and recurse on the two halves.
pub fn quick_sort(items: &mut Vec<i64>)
    ensures
        sorted(final(items)@),
        final(items)@.to_multiset() == old(items)@.to_multiset(),
        final(items)@.len() == old(items)@.len(),
{
    let n = items.len();
    quick_sort_range(items, 0, n);
    proof {
        assert(items@.subrange(0, n as int) =~= items@);
        assert(old(items)@.subrange(0, n as int) =~= old(items)@);
    }
}

/// The merge of two sequences, smaller head first and the left head on
/// ties; once one side runs out the other is drained.
pub open spec fn spec_merge(left: Seq<i64>, right: Seq<i64>) -> Seq<i64>
    decreases left.len() + right.len(),
{
    if left.len() == 0 {
        right
    } else if right.len() == 0 {
        left
    } else if left.first() <= right.first() {
        seq![left.first()] + spec_merge(left.drop_first(), right)
    } else {
        seq![right.first()] + spec_merge(left, right.drop_first())
    }
}

/// Merging keeps every element, and sorted inputs give a sorted result.
proof fn lemma_spec_merge(left: Seq<i64>, right: Seq<i64>)
    ensures
        spec_merge(left, right).to_multiset() == (left + right).to_multiset(),
        spec_merge(left, right).len() == left.len() + right.len(),
        forall|y: i64| #[trigger] spec_merge(left, right).contains(y) <==> (left.contains(y)
            || right.contains(y)),
        sorted(left) && sorted(right) ==> sorted(spec_merge(left, right)),
    decreases left.len() + right.len(),
{
    broadcast use vstd::seq_lib::group_to_multiset_ensures;
    broadcast use vstd::multiset::group_multiset_axioms;

    lemma_concat_contains(left, right);
    let s = spec_merge(left, right);
    if left.len() == 0 {
        assert(left + right =~= right);
    } else if right.len() == 0 {
        assert(left + right =~= left);
    } else {
        let (head, lt, rt) = if left.first() <= right.first() {
            (left.first(), left.drop_first(), right)
        } else {
            (right.first(), left, right.drop_first())
        };
        let rest = spec_merge(lt, rt);
        lemma_spec_merge(lt, rt);
        assert(s == seq![head] + rest);
        lemma_concat_contains(seq![head], rest);
        lemma_concat_contains(lt, rt);
        // multiset: peel the head off both sides
        vstd::seq_lib::lemma_multiset_commutative(seq![head], rest);
        vstd::seq_lib::lemma_multiset_commutative(lt, rt);
        vstd::seq_lib::lemma_multiset_commutative(left, right);
        assert(seq![head].to_multiset() =~= Multiset::<i64>::empty().insert(head)) by {
            assert(seq![head] =~= Seq::<i64>::empty().push(head));
        }
        if left.first() <= right.first() {
            assert(left =~= seq![head] + lt);
            vstd::seq_lib::lemma_multiset_commutative(seq![head], lt);
            assert(s.to_multiset() =~= (left + right).to_multiset());
        } else {
            assert(right =~= seq![head] + rt);
            vstd::seq_lib::lemma_multiset_commutative(seq![head], rt);
            assert(s.to_multiset() =~= (left + right).to_multiset());
        }
        // membership of the tails carries down to the halves
        assert forall|y: i64| #[trigger] lt.contains(y) || rt.contains(y) implies left.contains(
            y,
        ) || right.contains(y) by {
            if lt.contains(y) && lt != left {
                let k = choose|k: int| 0 <= k < lt.len() && lt[k] == y;
                assert(left[k + 1] == y);
            }
            if rt.contains(y) && rt != right {
                let k = choose|k: int| 0 <= k < rt.len() && rt[k] == y;
                assert(right[k + 1] == y);
            }
        }
        // sortedness: the head is below both remaining fronts
        if sorted(left) && sorted(right) {
            assert(sorted(lt)) by {
                if lt != left {
                    assert forall|p: int, q: int| 0 <= p < q < lt.len() implies lt[p] <= lt[q] by {
                        assert(lt[p] == left[p + 1]);
                        assert(lt[q] == left[q + 1]);
                    }
                }
            }
            assert(sorted(rt)) by {
                if rt != right {
                    assert forall|p: int, q: int| 0 <= p < q < rt.len() implies rt[p] <= rt[q] by {
                        assert(rt[p] == right[p + 1]);
                        assert(rt[q] == right[q + 1]);
                    }
                }
            }
            assert forall|y: i64| #[trigger] rest.contains(y) implies head <= y by {
                if lt.contains(y) {
                    let k = choose|k: int| 0 <= k < lt.len() && lt[k] == y;
                    if lt != left {
                        assert(left[k + 1] == y);
                    } else {
                        assert(right.first() < left.first());
                        assert(left[k] == y);
                    }
                }
                if rt.contains(y) {
                    let k = choose|k: int| 0 <= k < rt.len() && rt[k] == y;
                    if rt != right {
                        assert(right[k + 1] == y);
                    } else {
                        assert(right[k] == y);
                    }
                }
            }
            assert forall|p: int, q: int| 0 <= p < q < s.len() implies s[p] <= s[q] by {
                assert(s[q] == rest[q - 1]);
                assert(rest.contains(rest[q - 1]));
                if p > 0 {
                    assert(s[p] == rest[p - 1]);
                }
            }
        }
    }
}

/// Relies on itertools::merge: it yields, at each step, the smaller of the
/// two iterators' heads — the left one when they compare equal — and drains
/// whichever side is left over.
#[verifier::external_body]
fn merge_vecs(left: &Vec<i64>, right: &Vec<i64>) -> (merged: Vec<i64>)
    ensures
        merged@ == spec_merge(left@, right@),
{
    itertools::merge(left, right).copied().collect()
}

/// Merge sort: split in half, sort each half, and merge the sorted halves.
pub fn merge_sort(items: &mut Vec<i64>)
    ensures
        sorted(final(items)@),
        final(items)@.to_multiset() == old(items)@.to_multiset(),
        final(items)@.len() == old(items)@.len(),
    decreases old(items)@.len(),
{
    let n = items.len();
    if n <= 1 {
        return ;
    }
    let mid = n / 2;
    let mut left: Vec<i64> = Vec::new();
    let mut right: Vec<i64> = Vec::new();
    let mut i: usize = 0;
    while i < mid
        invariant
            mid <= n == items@.len(),
            0 <= i <= mid,
            left@ == items@.subrange(0, i as int),
        decreases mid - i,
    {
        left.push(items[i]);
        proof {
            assert(left@ =~= items@.subrange(0, i + 1));
        }
        i = i + 1;
    }
    let mut j: usize = mid;
    while j < n
        invariant
            mid <= n == items@.len(),
            mid <= j <= n,
            right@ == items@.subrange(mid as int, j as int),
        decreases n - j,
    {
        right.push(items[j]);
        proof {
            assert(right@ =~= items@.subrange(mid as int, j + 1));
        }
        j = j + 1;
    }
    let ghost orig = items@;
    merge_sort(&mut left);
    merge_sort(&mut right);
    let merged = merge_vecs(&left, &right);
    *items = merged;
    proof {
        broadcast use vstd::seq_lib::group_to_multiset_ensures;

        lemma_spec_merge(left@, right@);
        vstd::seq_lib::lemma_multiset_commutative(left@, right@);
        vstd::seq_lib::lemma_multiset_commutative(orig.subrange(0, mid as int), orig.subrange(mid as int, n as int));
        assert(orig.subrange(0, mid as int) + orig.subrange(mid as int, n as int) =~= orig);
    }
}

} // verus!

//! Sorting, reversing and searching sequences of `u32`.
use vstd::multiset::Multiset;
use vstd::prelude::*;
use vstd::seq_lib::{lemma_multiset_commutative, to_multiset_build, to_multiset_update};
use vstd::slice::{slice_subrange, slice_to_vec};

verus! {

/// Elements never decrease from left to right.
pub open spec fn sorted(s: Seq<u32>) -> bool {
    forall|i: int, j: int| 0 <= i <= j < s.len() ==> s[i] <= s[j]
}

/// `s` read back to front.
pub open spec fn reversed(s: Seq<u32>) -> Seq<u32> {
    Seq::new(s.len(), |i: int| s[s.len() - 1 - i])
}

/// Exchanging two elements keeps the multiset of elements.
proof fn lemma_swap_keeps_multiset(s: Seq<u32>, i: int, j: int)
    requires
        0 <= i < s.len(),
        0 <= j < s.len(),
    ensures
        s.update(i, s[j]).update(j, s[i]).to_multiset() =~= s.to_multiset(),
{
    broadcast use vstd::multiset::group_multiset_axioms;
    broadcast use vstd::seq_lib::group_to_multiset_ensures;

    let s1 = s.update(i, s[j]);
    assert(s.contains(s[i]));
    assert(s1.contains(s1[j]));
    to_multiset_update(s, i, s[j]);
    to_multiset_update(s1, j, s[i]);
    if i == j {
        assert(s.update(i, s[j]).update(j, s[i]) =~= s);
    }
}

/// Sorts `items` in place by repeatedly exchanging neighbours out of order.
pub fn bubble_sort(items: &mut [u32])
    ensures
        sorted(final(items)@),
        final(items)@.to_multiset() == old(items)@.to_multiset(),
        final(items)@.len() == old(items)@.len(),
{
    let len = items.len();
    if len == 0 {
        return;
    }
    let mut n: usize = len - 1;
    // after each pass, items[n..] holds the largest elements in order
    while n > 0
        invariant
            items@.len() == len,
            n < len,
            items@.to_multiset() == old(items)@.to_multiset(),
            forall|a: int, b: int| n <= a <= b < len ==> items@[a] <= items@[b],
            forall|a: int, b: int| 0 <= a <= n && n < b < len ==> items@[a] <= items@[b],
        decreases n,
    {
        let mut i: usize = 0;
        while i < n
            invariant
                items@.len() == len,
                i <= n,
                n < len,
                items@.to_multiset() == old(items)@.to_multiset(),
                forall|a: int, b: int| n < a <= b < len ==> items@[a] <= items@[b],
                forall|a: int, b: int| 0 <= a <= n && n < b < len ==> items@[a] <= items@[b],
                forall|a: int| 0 <= a <= i ==> items@[a] <= items@[i as int],
            decreases n - i,
        {
            if items[i] > items[i + 1] {
                let temp = items[i];
                proof {
                    lemma_swap_keeps_multiset(items@, i as int, i + 1);
                }
                items[i] = items[i + 1];
                items[i + 1] = temp;
            }
            i += 1;
        }
        n -= 1;
    }
}

/// Merges two sorted sequences into one sorted sequence of all their elements.
fn merge(left: &Vec<u32>, right: &Vec<u32>) -> (r: Vec<u32>)
    requires
        sorted(left@),
        sorted(right@),
    ensures
        sorted(r@),
        r@.to_multiset() == left@.to_multiset().add(right@.to_multiset()),
{
    broadcast use vstd::multiset::group_multiset_axioms;

    let mut i: usize = 0;
    let mut j: usize = 0;
    let mut merged: Vec<u32> = Vec::new();
    proof {
        assert(left@.subrange(0, 0) =~= Seq::<u32>::empty());
        assert(right@.subrange(0, 0) =~= Seq::<u32>::empty());
        assert(merged@ =~= Seq::<u32>::empty());
        vstd::seq_lib::to_multiset_len(Seq::<u32>::empty());
        assert(Seq::<u32>::empty().to_multiset() =~= Multiset::<u32>::empty());
    }
    while i < left.len() || j < right.len()
        invariant
            i <= left.len(),
            j <= right.len(),
            sorted(left@),
            sorted(right@),
            sorted(merged@),
            merged@.to_multiset() == left@.subrange(0, i as int).to_multiset().add(
                right@.subrange(0, j as int).to_multiset(),
            ),
            merged.len() > 0 && i < left.len() ==> merged@.last() <= left@[i as int],
            merged.len() > 0 && j < right.len() ==> merged@.last() <= right@[j as int],
        decreases left.len() + right.len() - i - j,
    {
        let take_left = j >= right.len() || (i < left.len() && left[i] < right[j]);
        let x = if take_left { left[i] } else { right[j] };
        proof {
            to_multiset_build(merged@, x);
            if take_left {
                assert(left@.subrange(0, i + 1) =~= left@.subrange(0, i as int).push(x));
                to_multiset_build(left@.subrange(0, i as int), x);
            } else {
                assert(right@.subrange(0, j + 1) =~= right@.subrange(0, j as int).push(x));
                to_multiset_build(right@.subrange(0, j as int), x);
            }
        }
        merged.push(x);
        if take_left {
            i += 1;
        } else {
            j += 1;
        }
    }
    proof {
        assert(left@.subrange(0, left.len() as int) =~= left@);
        assert(right@.subrange(0, right.len() as int) =~= right@);
    }
    merged
}

/// Returns a sorted copy of `items`, splitting it in halves and merging the
/// sorted halves.
pub fn merge_sort(items: &[u32]) -> (r: Vec<u32>)
    ensures
        sorted(r@),
        r@.to_multiset() == items@.to_multiset(),
        r@.len() == items@.len(),
    decreases items@.len(),
{
    if items.len() <= 1 {
        slice_to_vec(items)
    } else {
        let middle = items.len() / 2;
        let left_items = merge_sort(slice_subrange(items, 0, middle));
        let right_items = merge_sort(slice_subrange(items, middle, items.len()));
        let r = merge(&left_items, &right_items);
        proof {
            let s = items@;
            assert(s =~= s.subrange(0, middle as int) + s.subrange(middle as int, s.len() as int));
            lemma_multiset_commutative(s.subrange(0, middle as int), s.subrange(middle as int, s.len() as int));
            r@.to_multiset_ensures();
            s.to_multiset_ensures();
        }
        r
    }
}

/// Reverses `items` in place.
pub fn reverse_in_place(items: &mut [u32])
    ensures
        final(items)@ == reversed(old(items)@),
{
    let len = items.len();
    if len == 0 {
        proof {
            assert(items@ =~= reversed(old(items)@));
        }
        return;
    }
    let mut i: usize = 0;
    let mut j: usize = len - 1;
    while i < j
        invariant
            items@.len() == len,
            i + j == len - 1,
            j < len,
            forall|k: int| 0 <= k < i ==> items@[k] == old(items)@[len - 1 - k],
            forall|k: int| j < k < len ==> items@[k] == old(items)@[len - 1 - k],
            forall|k: int| i <= k <= j ==> items@[k] == old(items)@[k],
        decreases len - i,
    {
        let temp = items[i];
        items[i] = items[j];
        items[j] = temp;
        i += 1;
        j -= 1;
    }
    proof {
        assert(items@ =~= reversed(old(items)@));
    }
}

/// A new vector with the elements of `items` in reverse order.
pub fn reverse_copy(items: &[u32]) -> (r: Vec<u32>)
    ensures
        r@ == reversed(items@),
{
    let mut reversed_items: Vec<u32> = Vec::new();
    let mut i: usize = items.len();
    while i > 0
        invariant
            i <= items@.len(),
            reversed_items@.len() == items@.len() - i,
            forall|k: int| 0 <= k < reversed_items@.len() ==> reversed_items@[k] == items@[items@.len() - 1 - k],
        decreases i,
    {
        i -= 1;
        reversed_items.push(items[i]);
    }
    proof {
        assert(reversed_items@ =~= reversed(items@));
    }
    reversed_items
}

/// The index of the first occurrence of `target` in `items`.
pub fn linear_search(items: &[u32], target: &u32) -> (r: Option<usize>)
    ensures
        r matches Some(i) ==> i < items@.len() && items@[i as int] == *target && forall|k: int|
            0 <= k < i ==> items@[k] != *target,
        r is None ==> forall|k: int| 0 <= k < items@.len() ==> items@[k] != *target,
{
    let mut i: usize = 0;
    while i < items.len()
        invariant
            i <= items@.len(),
            forall|k: int| 0 <= k < i ==> items@[k] != *target,
        decreases items@.len() - i,
    {
        if items[i] == *target {
            return Some(i);
        }
        i += 1;
    }
    None
}

/// The index of some occurrence of `target` in the sorted `items`, found by
/// halving the range that may hold it.
pub fn binary_search(items: &[u32], target: &u32) -> (r: Option<usize>)
    requires
        sorted(items@),
    ensures
        r matches Some(i) ==> i < items@.len() && items@[i as int] == *target,
        r is None ==> forall|k: int| 0 <= k < items@.len() ==> items@[k] != *target,
{
    let mut lo: usize = 0;
    let mut hi: usize = items.len();
    while lo < hi
        invariant
            lo <= hi <= items@.len(),
            sorted(items@),
            forall|k: int| 0 <= k < lo ==> items@[k] < *target,
            forall|k: int| hi <= k < items@.len() ==> items@[k] > *target,
        decreases hi - lo,
    {
        let middle = lo + (hi - lo) / 2;
        if items[middle] < *target {
            lo = middle + 1;
        } else if items[middle] > *target {
            hi = middle;
        } else {
            return Some(middle);
        }
    }
    None
}

} // verus!

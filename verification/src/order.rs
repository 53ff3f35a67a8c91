//! The order in which files are packed: largest first, and among files of
//! one size the one that was found first.

use vstd::prelude::*;
use crate::bucket::{sizes_of, FileInfo};

verus! {

/// Where a file of `size` enters an order that is already descending: behind
/// every file that is at least as large.
pub open spec fn insertion_point(sizes: Seq<u64>, order: Seq<int>, size: u64) -> int
    decreases order.len(),
{
    if order.len() == 0 || sizes[order.last()] >= size {
        order.len() as int
    } else {
        insertion_point(sizes, order.drop_last(), size)
    }
}

/// The first `n` positions of `sizes`, largest size first, equal sizes in
/// the order in which they stand.
pub open spec fn order_of_prefix(sizes: Seq<u64>, n: nat) -> Seq<int>
    decreases n,
{
    if n == 0 {
        Seq::empty()
    } else {
        let earlier = order_of_prefix(sizes, (n - 1) as nat);
        earlier.insert(insertion_point(sizes, earlier, sizes[n - 1]), n - 1)
    }
}

/// All positions of `sizes`, largest size first, equal sizes in the order
/// in which they stand.
pub open spec fn descending_order(sizes: Seq<u64>) -> Seq<int> {
    order_of_prefix(sizes, sizes.len())
}

/// A list of positions as mathematical integers.
pub open spec fn positions(order: Seq<usize>) -> Seq<int> {
    Seq::new(order.len(), |k: int| order[k] as int)
}

pub proof fn lemma_insertion_point_bounds(sizes: Seq<u64>, order: Seq<int>, size: u64)
    ensures
        0 <= insertion_point(sizes, order, size) <= order.len(),
    decreases order.len(),
{
    if order.len() == 0 || sizes[order.last()] >= size {
    } else {
        lemma_insertion_point_bounds(sizes, order.drop_last(), size);
    }
}

/// What marks the insertion point: everything behind it is smaller than
/// `size`, and what stands just before it is not.
pub proof fn lemma_insertion_point_splits(sizes: Seq<u64>, order: Seq<int>, size: u64)
    ensures
        forall|k: int|
            insertion_point(sizes, order, size) <= k < order.len() ==> sizes[#[trigger] order[k]]
                < size,
        insertion_point(sizes, order, size) > 0 ==> sizes[order[insertion_point(
            sizes,
            order,
            size,
        ) - 1]] >= size,
    decreases order.len(),
{
    if order.len() == 0 || sizes[order.last()] >= size {
    } else {
        let shorter = order.drop_last();
        lemma_insertion_point_splits(sizes, shorter, size);
        lemma_insertion_point_bounds(sizes, shorter, size);
        let p = insertion_point(sizes, shorter, size);
        assert forall|k: int| p <= k < order.len() implies sizes[#[trigger] order[k]] < size by {
            if k < shorter.len() {
                assert(order[k] == shorter[k]);
            }
        }
        if p > 0 {
            assert(order[p - 1] == shorter[p - 1]);
        }
    }
}

/// Whether `order` names each of the positions `0 .. n` exactly once.
pub open spec fn is_arrangement(order: Seq<int>, n: nat) -> bool {
    &&& order.len() == n
    &&& forall|k: int| 0 <= k < n ==> 0 <= #[trigger] order[k] < n
    &&& forall|a: int, b: int| 0 <= a < b < n ==> #[trigger] order[a] != #[trigger] order[b]
    &&& forall|i: int| 0 <= i < n ==> #[trigger] order.contains(i)
}

/// Whether sizes never grow along `order`, and files of one size keep the
/// order in which they were found.
pub open spec fn is_stably_descending(sizes: Seq<u64>, order: Seq<int>) -> bool {
    forall|a: int, b: int|
        0 <= a < b < order.len() ==> {
            ||| sizes[#[trigger] order[a]] > sizes[#[trigger] order[b]]
            ||| sizes[order[a]] == sizes[order[b]] && order[a] < order[b]
        }
}

proof fn lemma_insert_index<A>(s: Seq<A>, p: int, x: A)
    requires
        0 <= p <= s.len(),
    ensures
        s.insert(p, x).len() == s.len() + 1,
        forall|k: int| 0 <= k < p ==> #[trigger] s.insert(p, x)[k] == s[k],
        s.insert(p, x)[p] == x,
        forall|k: int| p < k <= s.len() ==> #[trigger] s.insert(p, x)[k] == s[k - 1],
{
}

/// The order of the first `n` positions names each of them once, largest
/// size first, and keeps files of one size as they were found.
pub proof fn lemma_order_of_prefix(sizes: Seq<u64>, n: nat)
    requires
        n <= sizes.len(),
    ensures
        is_arrangement(order_of_prefix(sizes, n), n),
        is_stably_descending(sizes, order_of_prefix(sizes, n)),
    decreases n,
{
    let order = order_of_prefix(sizes, n);
    if n == 0 {
    } else {
        let m = (n - 1) as nat;
        let earlier = order_of_prefix(sizes, m);
        let size = sizes[n - 1];
        let p = insertion_point(sizes, earlier, size);
        lemma_order_of_prefix(sizes, m);
        lemma_insertion_point_bounds(sizes, earlier, size);
        lemma_insertion_point_splits(sizes, earlier, size);
        lemma_insert_index(earlier, p, n - 1);
        assert(order == earlier.insert(p, n - 1));
        assert forall|i: int| 0 <= i < n implies #[trigger] order.contains(i) by {
            if i == n - 1 {
                assert(order[p] == i);
            } else {
                assert(earlier.contains(i));
                let k = choose|k: int| 0 <= k < earlier.len() && earlier[k] == i;
                if k < p {
                    assert(order[k] == i);
                } else {
                    assert(order[k + 1] == i);
                }
            }
        }
        assert forall|a: int, b: int| 0 <= a < b < order.len() implies {
            ||| sizes[#[trigger] order[a]] > sizes[#[trigger] order[b]]
            ||| sizes[order[a]] == sizes[order[b]] && order[a] < order[b]
        } by {
            if b < p {
                assert(order[a] == earlier[a] && order[b] == earlier[b]);
            } else if b == p {
                assert(order[a] == earlier[a]);
                if a < p - 1 {
                    assert(order[p - 1] == earlier[p - 1]);
                    let _ = earlier[a];
                    let _ = earlier[p - 1];
                }
            } else if a < p {
                assert(order[a] == earlier[a] && order[b] == earlier[b - 1]);
            } else if a == p {
                assert(order[b] == earlier[b - 1]);
            } else {
                assert(order[a] == earlier[a - 1] && order[b] == earlier[b - 1]);
            }
        }
        assert forall|a: int, b: int| 0 <= a < b < n implies #[trigger] order[a]
            != #[trigger] order[b] by {
            let ea = if a < p { a } else { a - 1 };
            let eb = if b < p { b } else { b - 1 };
            if a != p && b != p {
                assert(order[a] == earlier[ea] && order[b] == earlier[eb]);
            } else if a == p {
                assert(order[b] == earlier[eb]);
            } else {
                assert(order[a] == earlier[ea]);
            }
        }
        assert forall|k: int| 0 <= k < n implies 0 <= #[trigger] order[k] < n by {
            if k < p {
                assert(order[k] == earlier[k]);
            } else if k > p {
                assert(order[k] == earlier[k - 1]);
            }
        }
    }
}

/// The packing order names every file exactly once.
pub proof fn lemma_descending_order_is_arrangement(sizes: Seq<u64>)
    ensures
        is_arrangement(descending_order(sizes), sizes.len()),
{
    lemma_order_of_prefix(sizes, sizes.len());
}

/// Along the packing order sizes never grow, and files of one size stay in
/// the order in which they were found.
pub proof fn lemma_descending_order_is_stable(sizes: Seq<u64>)
    ensures
        is_stably_descending(sizes, descending_order(sizes)),
{
    lemma_order_of_prefix(sizes, sizes.len());
}

/// The file that is packed first is as large as any other.
pub proof fn lemma_first_is_largest(sizes: Seq<u64>)
    requires
        sizes.len() > 0,
    ensures
        0 <= descending_order(sizes)[0] < sizes.len(),
        forall|i: int|
            0 <= i < sizes.len() ==> #[trigger] sizes[i] <= sizes[descending_order(sizes)[0]],
{
    let order = descending_order(sizes);
    lemma_order_of_prefix(sizes, sizes.len());
    assert forall|i: int| 0 <= i < sizes.len() implies #[trigger] sizes[i] <= sizes[order[0]] by {
        assert(order.contains(i));
        let k = choose|k: int| 0 <= k < order.len() && order[k] == i;
        if k > 0 {
            let _ = order[0];
            let _ = order[k];
        }
    }
}

/// Computes the packing order of `files`.
pub fn descending_by_size(files: &Vec<FileInfo>) -> (order: Vec<usize>)
    ensures
        positions(order@) == descending_order(sizes_of(files@)),
{
    let mut order: Vec<usize> = Vec::new();
    let ghost sizes = sizes_of(files@);
    assert(positions(order@) =~= order_of_prefix(sizes, 0));
    let mut i: usize = 0;
    while i < files.len()
        invariant
            i <= files.len(),
            sizes == sizes_of(files@),
            order.len() == i,
            positions(order@) == order_of_prefix(sizes, i as nat),
            forall|k: int| 0 <= k < order.len() ==> 0 <= #[trigger] order[k] < i,
        decreases files.len() - i,
    {
        let size: u64 = files[i].size;
        let ghost before = positions(order@);
        let mut j: usize = order.len();
        assert(before.take(j as int) =~= before);
        while j > 0 && files[order[j - 1]].size < size
            invariant
                j <= order.len(),
                i < files.len(),
                size == sizes[i as int],
                sizes == sizes_of(files@),
                before == positions(order@),
                forall|k: int| 0 <= k < order.len() ==> 0 <= #[trigger] order[k] < i,
                insertion_point(sizes, before, size) == insertion_point(
                    sizes,
                    before.take(j as int),
                    size,
                ),
            decreases j,
        {
            proof {
                let head = before.take(j as int);
                assert(head.last() == order[j - 1] as int);
                assert(head.drop_last() =~= before.take(j - 1));
            }
            j = j - 1;
        }
        proof {
            let head = before.take(j as int);
            if j > 0 {
                assert(head.last() == order[j - 1] as int);
            }
            assert(insertion_point(sizes, head, size) == j);
        }
        order.insert(j, i);
        assert(positions(order@) =~= before.insert(j as int, i as int));
        i = i + 1;
    }
    order
}

} // verus!

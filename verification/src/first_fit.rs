//! First fit: each file goes into the first bucket that has room for it,
//! and opens a new bucket where none has. Here is what that means, and what
//! holds of every plan that is made so.

use vstd::prelude::*;
use crate::bucket::{lemma_load_push, load, sizes_of, FileInfo};
use crate::order::{
    descending_order, insertion_point, lemma_descending_order_is_arrangement,
    lemma_insertion_point_bounds, order_of_prefix,
};

verus! {

/// Whether a file of `size` bytes still fits beside `members`.
pub open spec fn fits(sizes: Seq<u64>, members: Seq<int>, capacity: u64, size: u64) -> bool {
    load(sizes, members) + size <= capacity
}

/// The first bucket at or behind `start` that a file of `size` bytes fits
/// into; the number of buckets if there is none.
pub open spec fn first_fit_from(
    sizes: Seq<u64>,
    layout: Seq<Seq<int>>,
    capacity: u64,
    size: u64,
    start: nat,
) -> nat
    decreases layout.len() - start,
{
    if start >= layout.len() {
        layout.len()
    } else if fits(sizes, layout[start as int], capacity, size) {
        start
    } else {
        first_fit_from(sizes, layout, capacity, size, start + 1)
    }
}

/// The buckets after the file at position `index` has been placed: in the
/// first bucket that has room for it, else in a new bucket at the end.
pub open spec fn place(sizes: Seq<u64>, layout: Seq<Seq<int>>, capacity: u64, index: int) -> Seq<
    Seq<int>,
> {
    let slot = first_fit_from(sizes, layout, capacity, sizes[index], 0) as int;
    if slot < layout.len() {
        layout.update(slot, layout[slot].push(index))
    } else {
        layout.push(seq![index])
    }
}

/// The buckets after the files have been placed one by one in `order`.
pub open spec fn first_fit(sizes: Seq<u64>, order: Seq<int>, capacity: u64) -> Seq<Seq<int>>
    decreases order.len(),
{
    if order.len() == 0 {
        Seq::empty()
    } else {
        place(sizes, first_fit(sizes, order.drop_last(), capacity), capacity, order.last())
    }
}

/// The buckets that files of these sizes are packed into: for each bucket
/// the positions of its files, in the order in which they were admitted.
pub open spec fn plan_layout(sizes: Seq<u64>, capacity: u64) -> Seq<Seq<int>> {
    first_fit(sizes, descending_order(sizes), capacity)
}

/// The first fit is a bucket with room, and no bucket before it has room.
pub proof fn lemma_first_fit_from_splits(
    sizes: Seq<u64>,
    layout: Seq<Seq<int>>,
    capacity: u64,
    size: u64,
    start: nat,
)
    requires
        start <= layout.len(),
    ensures
        start <= first_fit_from(sizes, layout, capacity, size, start) <= layout.len(),
        first_fit_from(sizes, layout, capacity, size, start) < layout.len() ==> fits(
            sizes,
            layout[first_fit_from(sizes, layout, capacity, size, start) as int],
            capacity,
            size,
        ),
        forall|b: int|
            start <= b < first_fit_from(sizes, layout, capacity, size, start) ==> !fits(
                sizes,
                #[trigger] layout[b],
                capacity,
                size,
            ),
    decreases layout.len() - start,
{
    if start >= layout.len() {
    } else if fits(sizes, layout[start as int], capacity, size) {
    } else {
        lemma_first_fit_from_splits(sizes, layout, capacity, size, start + 1);
    }
}

/// Whether `(b, k)` names a member of a bucket of `layout`.
pub open spec fn is_member_at(layout: Seq<Seq<int>>, b: int, k: int) -> bool {
    0 <= b < layout.len() && 0 <= k < layout[b].len()
}

/// Whether some bucket of `layout` holds the position `index`.
pub open spec fn holds(layout: Seq<Seq<int>>, index: int) -> bool {
    exists|b: int, k: int| is_member_at(layout, b, k) && #[trigger] layout[b][k] == index
}

/// Whether the buckets of `layout` hold exactly the positions listed in
/// `items`, none of them twice.
pub open spec fn holds_each_once(layout: Seq<Seq<int>>, items: Seq<int>) -> bool {
    &&& forall|b: int, k: int|
        is_member_at(layout, b, k) ==> items.contains(#[trigger] layout[b][k])
    &&& forall|j: int| 0 <= j < items.len() ==> holds(layout, #[trigger] items[j])
    &&& forall|b: int, k: int, c: int, m: int|
        is_member_at(layout, b, k) && is_member_at(layout, c, m) && #[trigger] layout[b][k]
            == #[trigger] layout[c][m] ==> b == c && k == m
}

/// Whether the buckets of `layout` hold each of the positions `0 .. n`
/// exactly once, and nothing else.
pub open spec fn is_partition(layout: Seq<Seq<int>>, n: nat) -> bool {
    &&& forall|b: int, k: int| is_member_at(layout, b, k) ==> 0 <= #[trigger] layout[b][k] < n
    &&& forall|i: int| 0 <= i < n ==> #[trigger] holds(layout, i)
    &&& forall|b: int, k: int, c: int, m: int|
        is_member_at(layout, b, k) && is_member_at(layout, c, m) && #[trigger] layout[b][k]
            == #[trigger] layout[c][m] ==> b == c && k == m
}

/// Whether no bucket of `layout` holds more than `capacity` bytes.
pub open spec fn within_capacity(sizes: Seq<u64>, layout: Seq<Seq<int>>, capacity: u64) -> bool {
    forall|b: int| 0 <= b < layout.len() ==> load(sizes, #[trigger] layout[b]) <= capacity
}

/// Placing a file changes one bucket, or adds one, and leaves the others.
pub proof fn lemma_place(sizes: Seq<u64>, layout: Seq<Seq<int>>, capacity: u64, index: int)
    ensures
        ({
            let slot = first_fit_from(sizes, layout, capacity, sizes[index], 0) as int;
            let placed = place(sizes, layout, capacity, index);
            &&& 0 <= slot <= layout.len()
            &&& placed.len() == if slot < layout.len() {
                layout.len()
            } else {
                layout.len() + 1
            }
            &&& placed[slot] == if slot < layout.len() {
                layout[slot].push(index)
            } else {
                seq![index]
            }
            &&& slot < layout.len() ==> fits(sizes, layout[slot], capacity, sizes[index])
            &&& forall|b: int| 0 <= b < slot ==> !fits(sizes, #[trigger] layout[b], capacity, sizes[index])
            &&& forall|b: int| 0 <= b < layout.len() && b != slot ==> #[trigger] placed[b] == layout[b]
        }),
{
    lemma_first_fit_from_splits(sizes, layout, capacity, sizes[index], 0);
}

/// First fit puts each file of `order` into exactly one bucket, and leaves
/// no bucket empty.
pub proof fn lemma_first_fit_holds_each_once(sizes: Seq<u64>, order: Seq<int>, capacity: u64)
    requires
        order.no_duplicates(),
    ensures
        holds_each_once(first_fit(sizes, order, capacity), order),
        forall|b: int|
            0 <= b < first_fit(sizes, order, capacity).len() ==> (#[trigger] first_fit(
                sizes,
                order,
                capacity,
            )[b]).len() > 0,
    decreases order.len(),
{
    if order.len() > 0 {
        let earlier = order.drop_last();
        let index = order.last();
        let before = first_fit(sizes, earlier, capacity);
        let after = first_fit(sizes, order, capacity);
        let slot = first_fit_from(sizes, before, capacity, sizes[index], 0) as int;
        lemma_first_fit_holds_each_once(sizes, earlier, capacity);
        lemma_place(sizes, before, capacity, index);
        assert(after == place(sizes, before, capacity, index));
        assert(!earlier.contains(index)) by {
            if earlier.contains(index) {
                let j = choose|j: int| 0 <= j < earlier.len() && earlier[j] == index;
                assert(order[j] == index && order[order.len() - 1] == index);
            }
        }
        let top = after[slot].len() - 1;
        assert(after[slot][top] == index);
        // what a place of `after` holds: the new file, or what `before` held there
        assert forall|b: int, k: int| is_member_at(after, b, k) implies (b == slot && k == top
            && after[b][k] == index) || (is_member_at(before, b, k) && after[b][k]
            == before[b][k]) by {
            if b != slot {
                assert(after[b] == before[b]);
            }
        }
        assert forall|b: int, k: int| is_member_at(after, b, k) implies order.contains(
            #[trigger] after[b][k],
        ) by {
            if b == slot && k == top {
                assert(order[order.len() - 1] == index);
            } else {
                assert(earlier.contains(before[b][k]));
                let j = choose|j: int| 0 <= j < earlier.len() && earlier[j] == before[b][k];
                assert(order[j] == before[b][k]);
            }
        }
        assert forall|j: int| 0 <= j < order.len() implies holds(after, #[trigger] order[j]) by {
            if j == order.len() - 1 {
                assert(is_member_at(after, slot, top) && after[slot][top] == order[j]);
            } else {
                assert(earlier[j] == order[j]);
                assert(holds(before, earlier[j]));
                let (b, k) = choose|b: int, k: int|
                    is_member_at(before, b, k) && #[trigger] before[b][k] == earlier[j];
                if b != slot {
                    assert(after[b] == before[b]);
                }
                assert(is_member_at(after, b, k) && after[b][k] == order[j]);
            }
        }
        assert forall|b: int, k: int, c: int, m: int|
            is_member_at(after, b, k) && is_member_at(after, c, m) && #[trigger] after[b][k]
                == #[trigger] after[c][m] implies b == c && k == m by {
            let first_is_new = b == slot && k == top;
            let second_is_new = c == slot && m == top;
            if !first_is_new {
                assert(earlier.contains(before[b][k]));
            }
            if !second_is_new {
                assert(earlier.contains(before[c][m]));
            }
        }
        assert forall|b: int| 0 <= b < after.len() implies (#[trigger] after[b]).len() > 0 by {
            if b != slot {
                assert(after[b] == before[b]);
            }
        }
    }
}

/// First fit fills no bucket beyond the capacity, as long as each file alone
/// is within it.
pub proof fn lemma_first_fit_within_capacity(sizes: Seq<u64>, order: Seq<int>, capacity: u64)
    requires
        forall|j: int| 0 <= j < order.len() ==> sizes[#[trigger] order[j]] <= capacity,
    ensures
        within_capacity(sizes, first_fit(sizes, order, capacity), capacity),
    decreases order.len(),
{
    if order.len() > 0 {
        let earlier = order.drop_last();
        let index = order.last();
        let before = first_fit(sizes, earlier, capacity);
        let after = first_fit(sizes, order, capacity);
        let slot = first_fit_from(sizes, before, capacity, sizes[index], 0) as int;
        assert forall|j: int| 0 <= j < earlier.len() implies sizes[#[trigger] earlier[j]]
            <= capacity by {
            assert(earlier[j] == order[j]);
        }
        lemma_first_fit_within_capacity(sizes, earlier, capacity);
        lemma_place(sizes, before, capacity, index);
        assert(sizes[order[order.len() - 1]] <= capacity);
        assert forall|b: int| 0 <= b < after.len() implies load(sizes, #[trigger] after[b])
            <= capacity by {
            if b != slot {
                assert(after[b] == before[b]);
            } else if slot < before.len() {
                lemma_load_push(sizes, before[slot], index);
            } else {
                lemma_load_push(sizes, Seq::empty(), index);
                assert(seq![index] =~= Seq::<int>::empty().push(index));
            }
        }
    }
}

/// Whether no two buckets of `layout` would fit into one.
pub open spec fn no_two_fit_into_one(sizes: Seq<u64>, layout: Seq<Seq<int>>, capacity: u64) -> bool {
    forall|b: int, c: int|
        0 <= b < c < layout.len() ==> load(sizes, #[trigger] layout[b]) + load(
            sizes,
            #[trigger] layout[c],
        ) > capacity
}

/// First fit opens a bucket only for a file that no bucket has room for, so
/// what two of its buckets hold never fits into one.
pub proof fn lemma_first_fit_wastes_no_bucket(sizes: Seq<u64>, order: Seq<int>, capacity: u64)
    ensures
        no_two_fit_into_one(sizes, first_fit(sizes, order, capacity), capacity),
    decreases order.len(),
{
    if order.len() > 0 {
        let index = order.last();
        let before = first_fit(sizes, order.drop_last(), capacity);
        let after = first_fit(sizes, order, capacity);
        let slot = first_fit_from(sizes, before, capacity, sizes[index], 0) as int;
        lemma_first_fit_wastes_no_bucket(sizes, order.drop_last(), capacity);
        lemma_place(sizes, before, capacity, index);
        if slot < before.len() {
            lemma_load_push(sizes, before[slot], index);
        } else {
            lemma_load_push(sizes, Seq::empty(), index);
            assert(seq![index] =~= Seq::<int>::empty().push(index));
        }
        assert forall|b: int, c: int| 0 <= b < c < after.len() implies load(
            sizes,
            #[trigger] after[b],
        ) + load(sizes, #[trigger] after[c]) > capacity by {
            if c < before.len() {
                assert(load(sizes, before[b]) + load(sizes, before[c]) > capacity);
                assert(load(sizes, after[b]) >= load(sizes, before[b]));
                assert(load(sizes, after[c]) >= load(sizes, before[c]));
            } else {
                assert(!fits(sizes, before[b], capacity, sizes[index]));
                assert(after[b] == before[b]);
            }
        }
    }
}

/// What two buckets of the plan hold never fits into one bucket.
pub proof fn lemma_plan_wastes_no_bucket(sizes: Seq<u64>, capacity: u64)
    ensures
        no_two_fit_into_one(sizes, plan_layout(sizes, capacity), capacity),
{
    lemma_first_fit_wastes_no_bucket(sizes, descending_order(sizes), capacity);
}

/// Every file lies in exactly one bucket of the plan, once; no bucket is
/// empty.
pub proof fn lemma_plan_is_partition(sizes: Seq<u64>, capacity: u64)
    ensures
        is_partition(plan_layout(sizes, capacity), sizes.len()),
        forall|b: int|
            0 <= b < plan_layout(sizes, capacity).len() ==> (#[trigger] plan_layout(
                sizes,
                capacity,
            )[b]).len() > 0,
{
    let order = descending_order(sizes);
    let layout = plan_layout(sizes, capacity);
    lemma_descending_order_is_arrangement(sizes);
    lemma_first_fit_holds_each_once(sizes, order, capacity);
    assert forall|b: int, k: int| is_member_at(layout, b, k) implies 0 <= #[trigger] layout[b][k]
        < sizes.len() by {
        assert(order.contains(layout[b][k]));
    }
    assert forall|i: int| 0 <= i < sizes.len() implies #[trigger] holds(layout, i) by {
        assert(order.contains(i));
        let j = choose|j: int| 0 <= j < order.len() && order[j] == i;
        assert(holds(layout, order[j]));
        let (b, k) = choose|b: int, k: int|
            is_member_at(layout, b, k) && #[trigger] layout[b][k] == order[j];
        assert(is_member_at(layout, b, k) && layout[b][k] == i);
    }
}

/// Where no file is larger than the capacity, no bucket of the plan holds
/// more than the capacity.
pub proof fn lemma_plan_within_capacity(sizes: Seq<u64>, capacity: u64)
    requires
        forall|i: int| 0 <= i < sizes.len() ==> #[trigger] sizes[i] <= capacity,
    ensures
        within_capacity(sizes, plan_layout(sizes, capacity), capacity),
{
    let order = descending_order(sizes);
    lemma_descending_order_is_arrangement(sizes);
    lemma_first_fit_within_capacity(sizes, order, capacity);
}

/// The load of a bucket is at least what any one of its files holds, and at
/// least what any two of them hold together.
pub proof fn lemma_load_covers_members(sizes: Seq<u64>, members: Seq<int>, k: int, m: int)
    requires
        0 <= k <= m < members.len(),
    ensures
        load(sizes, members) >= sizes[members[k]],
        k < m ==> load(sizes, members) >= sizes[members[k]] + sizes[members[m]],
    decreases members.len(),
{
    let shorter = members.drop_last();
    if m < members.len() - 1 {
        lemma_load_covers_members(sizes, shorter, k, m);
    } else if k < m {
        lemma_load_covers_members(sizes, shorter, k, k);
    }
}

/// A file that is as large as the capacity fills its bucket: whatever else
/// the bucket holds is empty, and where no file is empty it holds that file
/// alone.
pub proof fn lemma_full_size_file_fills_its_bucket(
    sizes: Seq<u64>,
    capacity: u64,
    b: int,
    k: int,
)
    requires
        forall|i: int| 0 <= i < sizes.len() ==> #[trigger] sizes[i] <= capacity,
        is_member_at(plan_layout(sizes, capacity), b, k),
        sizes[plan_layout(sizes, capacity)[b][k]] == capacity,
    ensures
        load(sizes, plan_layout(sizes, capacity)[b]) == capacity,
        forall|m: int|
            0 <= m < plan_layout(sizes, capacity)[b].len() && m != k ==> sizes[#[trigger] plan_layout(
                sizes,
                capacity,
            )[b][m]] == 0,
        (forall|i: int| 0 <= i < sizes.len() ==> #[trigger] sizes[i] > 0) ==> plan_layout(
            sizes,
            capacity,
        )[b].len() == 1,
{
    let layout = plan_layout(sizes, capacity);
    let members = layout[b];
    lemma_plan_within_capacity(sizes, capacity);
    lemma_plan_is_partition(sizes, capacity);
    lemma_load_covers_members(sizes, members, k, k);
    assert forall|m: int| 0 <= m < members.len() && m != k implies sizes[#[trigger] layout[b][m]]
        == 0 by {
        if m < k {
            lemma_load_covers_members(sizes, members, m, k);
        } else {
            lemma_load_covers_members(sizes, members, k, m);
        }
    }
    if (forall|i: int| 0 <= i < sizes.len() ==> #[trigger] sizes[i] > 0) && members.len() != 1 {
        let m = if k == 0 { 1int } else { 0int };
        assert(is_member_at(layout, b, m));
        assert(sizes[layout[b][m]] == 0);
        assert(0 <= layout[b][m] < sizes.len());
    }
}

/// The bytes that all files hold together.
pub open spec fn total_size(sizes: Seq<u64>) -> nat
    decreases sizes.len(),
{
    if sizes.len() == 0 {
        0
    } else {
        total_size(sizes.drop_last()) + sizes.last() as nat
    }
}

/// The bytes that all buckets hold together.
pub open spec fn total_load(sizes: Seq<u64>, layout: Seq<Seq<int>>) -> nat
    decreases layout.len(),
{
    if layout.len() == 0 {
        0
    } else {
        total_load(sizes, layout.drop_last()) + load(sizes, layout.last())
    }
}

proof fn lemma_load_insert(sizes: Seq<u64>, members: Seq<int>, at: int, index: int)
    requires
        0 <= at <= members.len(),
    ensures
        load(sizes, members.insert(at, index)) == load(sizes, members) + sizes[index] as nat,
    decreases members.len(),
{
    if at == members.len() {
        assert(members.insert(at, index) =~= members.push(index));
        lemma_load_push(sizes, members, index);
    } else {
        let longer = members.insert(at, index);
        assert(longer.drop_last() =~= members.drop_last().insert(at, index));
        assert(longer.last() == members.last());
        lemma_load_insert(sizes, members.drop_last(), at, index);
    }
}

proof fn lemma_total_load_admit(sizes: Seq<u64>, layout: Seq<Seq<int>>, slot: int, index: int)
    requires
        0 <= slot < layout.len(),
    ensures
        total_load(sizes, layout.update(slot, layout[slot].push(index))) == total_load(
            sizes,
            layout,
        ) + sizes[index] as nat,
    decreases layout.len(),
{
    let changed = layout.update(slot, layout[slot].push(index));
    if slot == layout.len() - 1 {
        assert(changed.drop_last() =~= layout.drop_last());
        lemma_load_push(sizes, layout[slot], index);
    } else {
        assert(changed.drop_last() =~= layout.drop_last().update(
            slot,
            layout.drop_last()[slot].push(index),
        ));
        lemma_total_load_admit(sizes, layout.drop_last(), slot, index);
    }
}

proof fn lemma_first_fit_total(sizes: Seq<u64>, order: Seq<int>, capacity: u64)
    ensures
        total_load(sizes, first_fit(sizes, order, capacity)) == load(sizes, order),
    decreases order.len(),
{
    if order.len() > 0 {
        let index = order.last();
        let before = first_fit(sizes, order.drop_last(), capacity);
        let slot = first_fit_from(sizes, before, capacity, sizes[index], 0) as int;
        lemma_first_fit_total(sizes, order.drop_last(), capacity);
        lemma_place(sizes, before, capacity, index);
        if slot < before.len() {
            lemma_total_load_admit(sizes, before, slot, index);
        } else {
            assert(before.push(seq![index]).drop_last() =~= before);
            assert(seq![index] =~= Seq::<int>::empty().push(index));
            lemma_load_push(sizes, Seq::empty(), index);
        }
    }
}

proof fn lemma_order_total(sizes: Seq<u64>, n: nat)
    requires
        n <= sizes.len(),
    ensures
        load(sizes, order_of_prefix(sizes, n)) == total_size(sizes.take(n as int)),
    decreases n,
{
    if n > 0 {
        let earlier = order_of_prefix(sizes, (n - 1) as nat);
        lemma_order_total(sizes, (n - 1) as nat);
        lemma_insertion_point_bounds(sizes, earlier, sizes[n - 1]);
        lemma_load_insert(sizes, earlier, insertion_point(sizes, earlier, sizes[n - 1]), n - 1);
        assert(sizes.take(n as int).drop_last() =~= sizes.take(n - 1));
    } else {
        assert(sizes.take(0).len() == 0);
    }
}

/// The buckets of the plan hold together what the files hold together.
pub proof fn lemma_plan_keeps_total(sizes: Seq<u64>, capacity: u64)
    ensures
        total_load(sizes, plan_layout(sizes, capacity)) == total_size(sizes),
{
    lemma_first_fit_total(sizes, descending_order(sizes), capacity);
    lemma_order_total(sizes, sizes.len());
    assert(sizes.take(sizes.len() as int) =~= sizes);
}

/// The plan depends on the sizes of the files and on the capacity alone: two
/// lists of files with the same sizes, packed with the same capacity, give
/// the same number of buckets with the same positions in each.
pub proof fn lemma_plan_depends_on_sizes_alone(
    first: Seq<FileInfo>,
    second: Seq<FileInfo>,
    capacity: u64,
)
    requires
        first.len() == second.len(),
        forall|i: int| 0 <= i < first.len() ==> first[i].size == second[i].size,
    ensures
        plan_layout(sizes_of(first), capacity) == plan_layout(sizes_of(second), capacity),
{
    assert(sizes_of(first) =~= sizes_of(second));
}

} // verus!

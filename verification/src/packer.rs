//! First-fit packing of files, largest first, into buckets of one capacity.

use vstd::prelude::*;
use crate::bucket::{lemma_load_push, load, sizes_of, Bucket, FileInfo};
use crate::first_fit::{
    first_fit, first_fit_from, is_partition, lemma_first_fit_from_splits,
    lemma_plan_is_partition, place, plan_layout,
};
use crate::order::{
    descending_by_size, descending_order, is_arrangement, lemma_descending_order_is_arrangement,
    lemma_first_is_largest, positions,
};

verus! {

/// Why a list of files cannot be packed.
#[derive(Debug, Clone, Copy, PartialEq, Eq)]
pub enum PackError {
    /// There is no file to pack.
    EmptyInput,
    /// The file at `index`, the largest of the list, is larger than a bucket.
    Unpackable { index: usize },
}

/// For each bucket the positions of its files.
pub open spec fn layout_of(buckets: Seq<Bucket>) -> Seq<Seq<int>> {
    Seq::new(buckets.len(), |b: int| buckets[b].members())
}

/// Whether the buckets are numbered from one in the order in which they
/// stand, share one capacity, and each records the bytes that its files hold
/// and holds no more than the capacity.
pub open spec fn well_formed(buckets: Seq<Bucket>, sizes: Seq<u64>, capacity: u64) -> bool {
    forall|b: int|
        0 <= b < buckets.len() ==> {
            &&& (#[trigger] buckets[b]).spec_identifier() == b + 1
            &&& buckets[b].spec_capacity() == capacity
            &&& buckets[b].spec_size() == load(sizes, buckets[b].members())
            &&& buckets[b].spec_size() <= capacity
        }
}

/// Whether every member of every bucket is one of the positions `0 .. n`.
pub open spec fn refers_within(layout: Seq<Seq<int>>, n: nat) -> bool {
    forall|b: int, k: int|
        0 <= b < layout.len() && 0 <= k < layout[b].len() ==> 0 <= #[trigger] layout[b][k] < n
}

/// The buckets of one run, in the order in which they were opened, and the
/// files that they were packed from.
pub struct PackingPlan<'a> {
    files: &'a Vec<FileInfo>,
    capacity: u64,
    buckets: Vec<Bucket>,
}

impl<'a> PackingPlan<'a> {
    #[verifier::type_invariant]
    spec fn consistent(self) -> bool {
        &&& self.capacity > 0
        &&& self.buckets@.len() <= self.files@.len()
        &&& well_formed(self.buckets@, sizes_of(self.files@), self.capacity)
        &&& refers_within(layout_of(self.buckets@), self.files@.len())
    }

    /// The buckets of the plan.
    pub closed spec fn view(&self) -> Seq<Bucket> {
        self.buckets@
    }

    /// The files that were packed.
    pub closed spec fn spec_files(&self) -> Seq<FileInfo> {
        self.files@
    }

    /// The capacity that every bucket of the plan has.
    pub closed spec fn spec_capacity(&self) -> u64 {
        self.capacity
    }

    /// For each bucket the positions of its files.
    pub open spec fn layout(&self) -> Seq<Seq<int>> {
        layout_of(self@)
    }

    /// The buckets, in the order in which they were opened: numbered from
    /// one, each within the capacity, each naming files of the plan only.
    pub fn buckets(&self) -> (buckets: &Vec<Bucket>)
        ensures
            buckets@ == self@,
            well_formed(self@, sizes_of(self.spec_files()), self.spec_capacity()),
            refers_within(self.layout(), self.spec_files().len()),
    {
        proof {
            use_type_invariant(self);
        }
        &self.buckets
    }

    /// The files that were packed.
    pub fn files(&self) -> (files: &'a Vec<FileInfo>)
        ensures
            files@ == self.spec_files(),
    {
        self.files
    }

    /// The capacity that every bucket of the plan has; never zero.
    #[verifier::when_used_as_spec(spec_capacity)]
    pub fn capacity(&self) -> (capacity: u64)
        ensures
            capacity == self.spec_capacity(),
            capacity > 0,
    {
        proof {
            use_type_invariant(self);
        }
        self.capacity
    }

    /// The number of buckets; never more than there are files.
    pub fn len(&self) -> (n: usize)
        ensures
            n == self@.len(),
            n <= self.spec_files().len(),
    {
        proof {
            use_type_invariant(self);
        }
        self.buckets.len()
    }
}

/// Packs `files` into buckets of `capacity` bytes: largest file first, each
/// into the first bucket that has room for it, a new bucket when none has.
pub fn pack<'a>(files: &'a Vec<FileInfo>, capacity: u64) -> (result: Result<
    PackingPlan<'a>,
    PackError,
>)
    requires
        capacity > 0,
    ensures
        match result {
            Ok(plan) => {
                &&& files.len() > 0
                &&& forall|i: int| 0 <= i < files.len() ==> (#[trigger] files[i]).size <= capacity
                &&& plan.spec_files() == files@
                &&& plan.spec_capacity() == capacity
                &&& plan.layout() == plan_layout(sizes_of(files@), capacity)
                &&& well_formed(plan@, sizes_of(files@), capacity)
                &&& is_partition(plan.layout(), files@.len())
            },
            Err(PackError::EmptyInput) => files.len() == 0,
            Err(PackError::Unpackable { index }) => {
                &&& files.len() > 0
                &&& index == descending_order(sizes_of(files@))[0]
                &&& files[index as int].size > capacity
            },
        },
{
    if files.len() == 0 {
        return Err(PackError::EmptyInput);
    }
    let ghost sizes = sizes_of(files@);
    let order = descending_by_size(files);
    proof {
        lemma_first_is_largest(sizes);
        lemma_descending_order_is_arrangement(sizes);
        assert(positions(order@)[0] == order[0]);
    }
    let largest: usize = order[0];
    if files[largest].size > capacity {
        return Err(PackError::Unpackable { index: largest });
    }
    assert forall|i: int| 0 <= i < files.len() implies (#[trigger] files[i]).size <= capacity by {
        assert(sizes[i] <= sizes[largest as int]);
    }
    let mut buckets: Vec<Bucket> = Vec::new();
    assert(layout_of(buckets@) =~= first_fit(sizes, positions(order@).take(0), capacity));
    let mut k: usize = 0;
    while k < order.len()
        invariant
            k <= order.len(),
            order.len() == files.len(),
            sizes == sizes_of(files@),
            is_arrangement(positions(order@), files.len() as nat),
            forall|i: int| 0 <= i < files.len() ==> (#[trigger] files[i]).size <= capacity,
            buckets.len() <= k,
            well_formed(buckets@, sizes, capacity),
            layout_of(buckets@) == first_fit(sizes, positions(order@).take(k as int), capacity),
        decreases order.len() - k,
    {
        proof {
            assert(positions(order@)[k as int] == order[k as int]);
        }
        let index: usize = order[k];
        let file = &files[index];
        let ghost before = buckets@;
        let ghost layout = layout_of(before);
        let mut slot: usize = 0;
        let mut added = false;
        while slot < buckets.len() && !added
            invariant
                slot <= buckets.len(),
                buckets.len() == before.len(),
                layout == layout_of(before),
                well_formed(before, sizes, capacity),
                well_formed(buckets@, sizes, capacity),
                sizes == sizes_of(files@),
                0 <= index < files.len(),
                *file == files[index as int],
                !added ==> buckets@ == before,
                !added ==> first_fit_from(sizes, layout, capacity, file.size, 0)
                    == first_fit_from(sizes, layout, capacity, file.size, slot as nat),
                added ==> slot < before.len() && layout_of(buckets@) == place(
                    sizes,
                    layout,
                    capacity,
                    index as int,
                ),
            decreases buckets.len() - slot + if added { 0int } else { 1int },
        {
            assert(layout[slot as int] == before[slot as int].members());
            if buckets[slot].add(index, file) {
                added = true;
                proof {
                    lemma_load_push(sizes, layout[slot as int], index as int);
                    assert forall|b: int| 0 <= b < buckets.len() && b != slot implies buckets[b]
                        == before[b] by {}
                    assert(layout_of(buckets@) =~= layout.update(
                        slot as int,
                        layout[slot as int].push(index as int),
                    ));
                }
            } else {
                slot = slot + 1;
            }
        }
        if !added {
            let mut bucket = Bucket::new((buckets.len() + 1) as u64, capacity);
            let admitted = bucket.add(index, file);
            assert(admitted);
            buckets.push(bucket);
            proof {
                lemma_load_push(sizes, Seq::empty(), index as int);
                lemma_first_fit_from_splits(sizes, layout, capacity, file.size, 0);
                assert(layout_of(buckets@) =~= layout.push(seq![index as int]));
            }
        }
        proof {
            let done = positions(order@).take(k + 1);
            assert(done.drop_last() =~= positions(order@).take(k as int));
            assert(done.last() == index as int);
        }
        k = k + 1;
    }
    proof {
        assert(positions(order@).take(k as int) =~= positions(order@));
        lemma_plan_is_partition(sizes, capacity);
    }
    Ok(PackingPlan { files, capacity, buckets })
}

} // verus!

//! Files and the capacity-bounded buckets that hold them.

use vstd::prelude::*;

verus! {

/// One discovered file: where it lies and how many bytes it holds.
pub struct FileInfo {
    pub path: String,
    pub size: u64,
}

/// The sizes of a list of files, in the order of the list.
pub open spec fn sizes_of(files: Seq<FileInfo>) -> Seq<u64> {
    Seq::new(files.len(), |i: int| files[i].size)
}

/// The bytes that the files at the positions `members` hold together.
pub open spec fn load(sizes: Seq<u64>, members: Seq<int>) -> nat
    decreases members.len(),
{
    if members.len() == 0 {
        0
    } else {
        load(sizes, members.drop_last()) + sizes[members.last()] as nat
    }
}

/// Admitting one more file adds its size to the load.
pub proof fn lemma_load_push(sizes: Seq<u64>, members: Seq<int>, index: int)
    ensures
        load(sizes, members.push(index)) == load(sizes, members) + sizes[index] as nat,
{
    assert(members.push(index).drop_last() =~= members);
}

/// A group of files bound for one directory. The files are named by their
/// position in the list that is being packed.
pub struct Bucket {
    identifier: u64,
    capacity: u64,
    size: u64,
    contents: Vec<usize>,
}

impl Bucket {
    /// Whether the bucket holds no more than its capacity.
    pub open spec fn within_capacity(&self) -> bool {
        self.spec_size() <= self.spec_capacity()
    }

    /// The positions of the admitted files, in the order of admission.
    pub closed spec fn members(&self) -> Seq<int> {
        Seq::new(self.contents@.len(), |k: int| self.contents@[k] as int)
    }

    /// The ordinal of the bucket, from which its directory is named.
    pub closed spec fn spec_identifier(&self) -> u64 {
        self.identifier
    }

    /// The most bytes that the bucket may hold.
    pub closed spec fn spec_capacity(&self) -> u64 {
        self.capacity
    }

    /// The bytes that the admitted files hold together.
    pub closed spec fn spec_size(&self) -> u64 {
        self.size
    }

    /// An empty bucket with the given ordinal and byte limit.
    pub fn new(identifier: u64, capacity: u64) -> (bucket: Bucket)
        ensures
            bucket.spec_identifier() == identifier,
            bucket.spec_capacity() == capacity,
            bucket.spec_size() == 0,
            bucket.members() == Seq::<int>::empty(),
    {
        let bucket = Bucket { identifier, capacity, size: 0, contents: Vec::new() };
        assert(bucket.members() =~= Seq::<int>::empty());
        bucket
    }

    /// The ordinal of the bucket.
    #[verifier::when_used_as_spec(spec_identifier)]
    pub fn identifier(&self) -> (identifier: u64)
        ensures
            identifier == self.spec_identifier(),
    {
        self.identifier
    }

    /// The most bytes that the bucket may hold.
    #[verifier::when_used_as_spec(spec_capacity)]
    pub fn capacity(&self) -> (capacity: u64)
        ensures
            capacity == self.spec_capacity(),
    {
        self.capacity
    }

    /// The bytes that the admitted files hold together.
    #[verifier::when_used_as_spec(spec_size)]
    pub fn size(&self) -> (size: u64)
        ensures
            size == self.spec_size(),
    {
        self.size
    }

    /// The positions of the admitted files, in the order of admission.
    pub fn contents(&self) -> (contents: &Vec<usize>)
        ensures
            contents@.len() == self.members().len(),
            forall|k: int| 0 <= k < contents@.len() ==> contents@[k] == self.members()[k],
    {
        &self.contents
    }

    /// Admits the file at position `index` if it still fits, and says whether
    /// it did. A bucket that refuses a file is left as it was.
    pub fn add(&mut self, index: usize, file: &FileInfo) -> (admitted: bool)
        ensures
            admitted == (old(self).spec_size() + file.size <= old(self).spec_capacity()),
            final(self).spec_identifier() == old(self).spec_identifier(),
            final(self).spec_capacity() == old(self).spec_capacity(),
            admitted ==> final(self).spec_size() == old(self).spec_size() + file.size,
            admitted ==> final(self).members() == old(self).members().push(index as int),
            !admitted ==> *final(self) == *old(self),
    {
        match self.size.checked_add(file.size) {
            Some(total) => {
                if total <= self.capacity {
                    self.contents.push(index);
                    self.size = total;
                    assert(self.members() =~= old(self).members().push(index as int));
                    true
                } else {
                    false
                }
            },
            None => false,
        }
    }
}

} // verus!

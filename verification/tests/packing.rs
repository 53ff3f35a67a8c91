use bucketlink::bucket::{Bucket, FileInfo};
use bucketlink::order::descending_by_size;
use bucketlink::packer::{pack, PackError, PackingPlan};

fn files_of(sizes: &[u64]) -> Vec<FileInfo> {
    sizes
        .iter()
        .enumerate()
        .map(|(i, size)| FileInfo { path: format!("file{}", i), size: *size })
        .collect()
}

fn layout(plan: &PackingPlan) -> Vec<Vec<usize>> {
    plan.buckets().iter().map(|bucket| bucket.contents().clone()).collect()
}

fn loads(plan: &PackingPlan) -> Vec<u64> {
    plan.buckets().iter().map(|bucket| bucket.size()).collect()
}

#[test]
fn three_tens_in_fifteen_take_three_buckets() {
    let files = files_of(&[10, 10, 10]);
    let plan = pack(&files, 15).unwrap();
    assert_eq!(plan.len(), 3);
    assert_eq!(layout(&plan), vec![vec![0], vec![1], vec![2]]);
    assert_eq!(loads(&plan), vec![10, 10, 10]);
}

#[test]
fn four_sixes_in_twelve_pair_up() {
    let files = files_of(&[6, 6, 6, 6]);
    let plan = pack(&files, 12).unwrap();
    assert_eq!(plan.len(), 2);
    assert_eq!(layout(&plan), vec![vec![0, 1], vec![2, 3]]);
    assert_eq!(loads(&plan), vec![12, 12]);
}

#[test]
fn largest_first_then_first_fit() {
    let files = files_of(&[3, 8, 5, 2, 7]);
    let plan = pack(&files, 10).unwrap();
    assert_eq!(layout(&plan), vec![vec![1, 3], vec![4, 0], vec![2]]);
    assert_eq!(loads(&plan), vec![10, 10, 5]);
}

#[test]
fn buckets_are_numbered_from_one_and_share_the_capacity() {
    let files = files_of(&[9, 9, 9, 1]);
    let plan = pack(&files, 10).unwrap();
    assert_eq!(plan.capacity(), 10);
    let ids: Vec<u64> = plan.buckets().iter().map(|b| b.identifier()).collect();
    assert_eq!(ids, vec![1, 2, 3]);
    for bucket in plan.buckets() {
        assert_eq!(bucket.capacity(), 10);
        assert!(bucket.size() <= bucket.capacity());
    }
    assert_eq!(layout(&plan), vec![vec![0, 3], vec![1], vec![2]]);
}

#[test]
fn descending_order_keeps_equal_sizes_as_found() {
    let files = files_of(&[5, 9, 5, 9, 1, 5]);
    assert_eq!(descending_by_size(&files), vec![1, 3, 0, 2, 5, 4]);
}

#[test]
fn descending_order_of_nothing_is_empty() {
    let files = files_of(&[]);
    assert_eq!(descending_by_size(&files), Vec::<usize>::new());
}

#[test]
fn every_file_lies_in_one_bucket_once() {
    let sizes: Vec<u64> = (0..200u64).map(|i| (i * 7919 + 13) % 97).collect();
    let files = files_of(&sizes);
    let plan = pack(&files, 100).unwrap();
    let mut seen = vec![0usize; files.len()];
    let mut total: u64 = 0;
    for bucket in plan.buckets() {
        assert!(!bucket.contents().is_empty());
        let mut load: u64 = 0;
        for index in bucket.contents() {
            seen[*index] += 1;
            load += files[*index].size;
        }
        assert_eq!(load, bucket.size());
        assert!(load <= 100);
        total += load;
    }
    assert!(seen.iter().all(|count| *count == 1));
    assert_eq!(total, sizes.iter().sum::<u64>());
    let held = loads(&plan);
    for b in 0..held.len() {
        for c in b + 1..held.len() {
            assert!(held[b] + held[c] > 100);
        }
    }
    assert_eq!(plan.files().len(), files.len());
}

#[test]
fn packing_twice_gives_the_same_plan() {
    let sizes = [40, 10, 25, 25, 60, 5, 5, 30];
    let first = files_of(&sizes);
    let second: Vec<FileInfo> = sizes
        .iter()
        .enumerate()
        .map(|(i, size)| FileInfo { path: format!("other/{}", i), size: *size })
        .collect();
    let a = pack(&first, 64).unwrap();
    let b = pack(&first, 64).unwrap();
    let c = pack(&second, 64).unwrap();
    assert_eq!(layout(&a), layout(&b));
    assert_eq!(layout(&a), layout(&c));
    assert_eq!(layout(&a), vec![vec![4], vec![0, 1, 5, 6], vec![7, 2], vec![3]]);
    assert_eq!(a.len(), 4);
}

#[test]
fn a_file_as_large_as_the_capacity_fills_its_bucket_alone() {
    let files = files_of(&[4, 12, 8]);
    let plan = pack(&files, 12).unwrap();
    assert_eq!(layout(&plan), vec![vec![1], vec![2, 0]]);
    assert_eq!(plan.buckets()[0].size(), plan.buckets()[0].capacity());
}

#[test]
fn an_empty_file_joins_a_full_bucket() {
    let files = files_of(&[10, 0]);
    let plan = pack(&files, 10).unwrap();
    assert_eq!(layout(&plan), vec![vec![0, 1]]);
    assert_eq!(loads(&plan), vec![10]);
}

#[test]
fn no_files_cannot_be_packed() {
    let files = files_of(&[]);
    assert_eq!(pack(&files, 10).err(), Some(PackError::EmptyInput));
}

#[test]
fn a_file_beyond_the_capacity_cannot_be_packed() {
    let files = files_of(&[5, 20, 30, 30]);
    assert_eq!(pack(&files, 25).err(), Some(PackError::Unpackable { index: 2 }));
    let files = files_of(&[11]);
    assert_eq!(pack(&files, 10).err(), Some(PackError::Unpackable { index: 0 }));
}

#[test]
fn a_single_file_of_the_capacity_is_packed() {
    let files = files_of(&[10]);
    let plan = pack(&files, 10).unwrap();
    assert_eq!(layout(&plan), vec![vec![0]]);
}

#[test]
fn add_admits_while_there_is_room() {
    let small = FileInfo { path: String::from("small"), size: 4 };
    let large = FileInfo { path: String::from("large"), size: 7 };
    let mut bucket = Bucket::new(1, 10);
    assert!(bucket.add(0, &small));
    assert_eq!(bucket.size(), 4);
    assert!(!bucket.add(1, &large));
    assert_eq!(bucket.size(), 4);
    assert_eq!(bucket.contents(), &vec![0]);
    assert!(bucket.add(2, &small));
    assert_eq!(bucket.size(), 8);
    assert_eq!(bucket.contents(), &vec![0, 2]);
    assert_eq!(bucket.identifier(), 1);
    assert_eq!(bucket.capacity(), 10);
}

#[test]
fn add_fills_a_bucket_to_the_brim() {
    let exact = FileInfo { path: String::from("exact"), size: 10 };
    let one = FileInfo { path: String::from("one"), size: 1 };
    let mut bucket = Bucket::new(7, 10);
    assert!(bucket.add(3, &exact));
    assert_eq!(bucket.size(), 10);
    assert!(!bucket.add(4, &one));
    assert_eq!(bucket.contents(), &vec![3]);
}

#[test]
fn add_refuses_what_would_overflow_the_count() {
    let huge = FileInfo { path: String::from("huge"), size: u64::MAX };
    let one = FileInfo { path: String::from("one"), size: 1 };
    let mut bucket = Bucket::new(1, u64::MAX);
    assert!(bucket.add(0, &one));
    assert!(!bucket.add(1, &huge));
    assert_eq!(bucket.size(), 1);
}

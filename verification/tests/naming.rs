use bucketlink::naming::{bucket_dir, link_target, numbered_dir_namer};

#[test]
fn bucket_directories_are_numbered_in_three_digits() {
    assert_eq!(bucket_dir("part", 1), "part/001");
    assert_eq!(bucket_dir("part", 12), "part/012");
    assert_eq!(bucket_dir("part", 123), "part/123");
    assert_eq!(bucket_dir("part", 99), "part/099");
    assert_eq!(bucket_dir("part", 100), "part/100");
    assert_eq!(bucket_dir("part", 0), "part/000");
}

#[test]
fn larger_ordinals_take_the_digits_they_need() {
    assert_eq!(bucket_dir("out/dir", 1234), "out/dir/1234");
    assert_eq!(bucket_dir("", 18_446_744_073_709_551_615), "/18446744073709551615");
}

#[test]
fn the_namer_counts_from_one() {
    let mut namer = numbered_dir_namer("part");
    assert_eq!(namer.count(), 0);
    assert_eq!(namer.next_dir(), "part/001");
    assert_eq!(namer.next_dir(), "part/002");
    assert_eq!(namer.next_dir(), "part/003");
    assert_eq!(namer.count(), 3);
}

#[test]
fn namers_do_not_share_their_count() {
    let mut first = numbered_dir_namer("a");
    let mut second = numbered_dir_namer("b");
    assert_eq!(first.next_dir(), "a/001");
    assert_eq!(first.next_dir(), "a/002");
    assert_eq!(second.next_dir(), "b/001");
}

#[test]
fn a_link_lies_below_the_bucket_under_the_path_of_its_file() {
    assert_eq!(link_target("part/001", "a.txt"), "part/001/a.txt");
    assert_eq!(link_target("part/001", "./sub/dir/a.txt"), "part/001/./sub/dir/a.txt");
    assert_eq!(link_target("part/002", "größe/ä.txt"), "part/002/größe/ä.txt");
}

use bucketlink::bucket::FileInfo;
use bucketlink::linking::link_steps;
use bucketlink::packer::pack;
use bucketlink::report::{bucket_report, header, percent};

fn named(entries: &[(&str, u64)]) -> Vec<FileInfo> {
    entries.iter().map(|(path, size)| FileInfo { path: String::from(*path), size: *size }).collect()
}

#[test]
fn the_header_names_directory_load_capacity_and_percent() {
    assert_eq!(header("part/001", 12, 12), "Bucket \"part/001\": 12/12 (100%).");
    assert_eq!(
        header("part/002", 7_500_000, 15_000_000),
        "Bucket \"part/002\": 7.50M/15.00M (50%)."
    );
    assert_eq!(header("x", 1, 3), "Bucket \"x\": 1/3 (33%).");
}

#[test]
fn percent_is_rounded_down() {
    assert_eq!(percent(0, 10), 0);
    assert_eq!(percent(1, 3), 33);
    assert_eq!(percent(2, 3), 66);
    assert_eq!(percent(10, 10), 100);
    assert_eq!(percent(u64::MAX, u64::MAX), 100);
    assert_eq!(percent(u64::MAX, 1), 1_844_674_407_370_955_161_500);
}

#[test]
fn a_report_lists_the_files_of_the_bucket_below_its_header() {
    let files = named(&[("./a", 6), ("./b", 6), ("./c", 6), ("./d", 6)]);
    let plan = pack(&files, 12).unwrap();
    let rule = "-".repeat(32);
    assert_eq!(
        bucket_report(&plan, 0, "part"),
        format!(
            "{}\nBucket \"part/001\": 12/12 (100%).\n{}\n       6 ./a\n       6 ./b\n",
            rule, rule
        )
    );
    assert_eq!(
        bucket_report(&plan, 1, "part"),
        format!(
            "{}\nBucket \"part/002\": 12/12 (100%).\n{}\n       6 ./c\n       6 ./d\n",
            rule, rule
        )
    );
}

#[test]
fn sizes_stand_flush_right_in_eight_places() {
    let files = named(&[("big", 14_000_000), ("mid", 999_999), ("wide", 123_456_789_012)]);
    let plan = pack(&files, 200_000_000_000).unwrap();
    let report = bucket_report(&plan, 0, "out");
    let lines: Vec<&str> = report.lines().collect();
    assert_eq!(lines[1], "Bucket \"out/001\": 123.47G/200.00G (61%).");
    assert_eq!(lines[3], " 123.46G wide");
    assert_eq!(lines[4], "  14.00M big");
    assert_eq!(lines[5], "1000.00K mid");
    assert_eq!(lines.len(), 6);
}

#[test]
fn the_rules_are_as_long_as_the_header_has_bytes() {
    let files = named(&[("ä", 1)]);
    let plan = pack(&files, 2).unwrap();
    let report = bucket_report(&plan, 0, "größe");
    let lines: Vec<&str> = report.lines().collect();
    assert_eq!(lines[1], "Bucket \"größe/001\": 1/2 (50%).");
    assert_eq!(lines[0].len(), lines[1].len());
    assert_eq!(lines[0].chars().count(), lines[1].chars().count() + 2);
    assert!(lines[0].chars().all(|c| c == '-'));
    assert_eq!(lines[0], lines[2]);
    assert_eq!(lines[3], "       1 ä");
}

#[test]
fn every_file_of_a_bucket_gets_its_link() {
    let files = named(&[("./a", 3), ("./sub/b", 8), ("./c", 5), ("./d", 2), ("./e", 7)]);
    let plan = pack(&files, 10).unwrap();
    let steps = link_steps(&plan, 0, "part");
    let pairs: Vec<(&str, &str)> =
        steps.iter().map(|s| (s.source.as_str(), s.target.as_str())).collect();
    assert_eq!(pairs, vec![("./sub/b", "part/001/./sub/b"), ("./d", "part/001/./d")]);
    let steps = link_steps(&plan, 1, "part");
    let pairs: Vec<(&str, &str)> =
        steps.iter().map(|s| (s.source.as_str(), s.target.as_str())).collect();
    assert_eq!(pairs, vec![("./e", "part/002/./e"), ("./a", "part/002/./a")]);
    let steps = link_steps(&plan, 2, "part");
    assert_eq!(steps.len(), 1);
    assert_eq!(steps[0].target, "part/003/./c");
}

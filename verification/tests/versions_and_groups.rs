use std::cmp::Ordering;

use caplike::archive::Archive;
use caplike::catalog::{group_archives, matching_archives};
use caplike::version_order::{
    latest_archive, latest_report, named_versions_comparable_in,
};

fn archive(f: &str) -> Archive {
    Archive::from_file_name(f).unwrap()
}

#[test]
fn versions_compare_numbers_by_value() {
    let a2 = archive("tool-v2.zip");
    let a10 = archive("tool-v10.zip");
    assert_eq!(a2.cmp_by_version(&a10), Ordering::Less);
    assert_eq!(a10.cmp_by_version(&a2), Ordering::Greater);
    assert_eq!(a2.cmp_by_version(&a2), Ordering::Equal);
    let d1 = archive("tool-20240101.zip");
    let d2 = archive("tool-20240201.zip");
    assert_eq!(d1.cmp_by_version(&d2), Ordering::Less);
    let v1 = archive("tool-v1.2.9.zip");
    let v2 = archive("tool-v1.10.0.zip");
    assert_eq!(v1.cmp_by_version(&v2), Ordering::Less);
}

#[test]
fn latest_is_the_greatest_version_of_the_name() {
    let archives = vec![
        archive("tool-v2.zip"),
        archive("other-v99.zip"),
        archive("tool-v10.zip"),
        archive("tool-v9.zip"),
    ];
    assert!(named_versions_comparable_in(&archives, "tool"));
    assert_eq!(latest_archive(&archives, "tool"), Some(2));
    assert_eq!(latest_archive(&archives, "other"), Some(1));
    assert_eq!(latest_archive(&archives, "none"), None);
    assert_eq!(latest_archive(&Vec::new(), "tool"), None);
}

#[test]
fn latest_keeps_the_later_of_equal_versions() {
    let archives = vec![archive("tool-v1.zip"), archive("tool-v1.tar.gz")];
    assert_eq!(latest_archive(&archives, "tool"), Some(1));
}

#[test]
fn oversized_version_numbers_are_detected() {
    // Both versions hold a number past u32::MAX and first differ at two digits.
    let archives = vec![archive("tool-v99999999999.zip"), archive("tool-v99999999998.zip")];
    assert!(!named_versions_comparable_in(&archives, "tool"));
    assert!(named_versions_comparable_in(&archives, "other"));
    let fits = vec![archive("tool-v4294967295.zip"), archive("tool-v1.zip")];
    assert!(named_versions_comparable_in(&fits, "tool"));
    let over = vec![archive("tool-v4294967296.zip"), archive("tool-v4294967297.zip")];
    assert!(!named_versions_comparable_in(&over, "tool"));
}

#[test]
fn oversized_numbers_after_the_first_difference_are_compared() {
    // Equal versions compare Equal without adding up any number.
    let a = archive("tool-v4294967296.zip");
    let b = archive("tool-v4294967296.tar.gz");
    assert_eq!(a.cmp_by_version(&b), Ordering::Equal);
    // The texts first differ where one of them ends.
    let c = archive("tool-v99999999999.zip");
    let d = archive("tool-v99999999999.1.zip");
    assert_eq!(c.cmp_by_version(&d), Ordering::Less);
    // A date against a dotted version differs first at 'v', a letter.
    let e = archive("tool-20240101.zip");
    assert_eq!(c.cmp_by_version(&e), Ordering::Greater);
    let archives = vec![c, d, e];
    assert!(named_versions_comparable_in(&archives, "tool"));
    assert_eq!(latest_archive(&archives, "tool"), Some(1));
}

#[test]
fn matching_keeps_the_named_archives_in_order() {
    let archives = vec![
        archive("a-v1.zip"),
        archive("b-v1.zip"),
        archive("a-v2.zip"),
    ];
    let kept = matching_archives(archives, Some("a"));
    let versions: Vec<&str> = kept.iter().map(|a| a.version()).collect();
    assert_eq!(versions, vec!["v1", "v2"]);
    let all = matching_archives(vec![archive("a-v1.zip"), archive("b-v1.zip")], None);
    assert_eq!(all.len(), 2);
    let none = matching_archives(vec![archive("a-v1.zip")], Some("c"));
    assert!(none.is_empty());
}

#[test]
fn groups_are_runs_of_one_name() {
    let archives = vec![
        archive("a-v1.zip"),
        archive("a-v2.zip"),
        archive("b-v1.zip"),
        archive("a-v3.zip"),
    ];
    let groups = group_archives(&archives);
    let names: Vec<Vec<&str>> = groups
        .iter()
        .map(|g| g.iter().map(|a| a.base_name()).collect())
        .collect();
    assert_eq!(
        names,
        vec![vec!["a-v1", "a-v2"], vec!["b-v1"], vec!["a-v3"]]
    );
    assert!(group_archives(&Vec::new()).is_empty());
}

#[test]
fn latest_report_names_the_base_name_or_the_missing_name() {
    let archives = vec![archive("tool-v2.zip"), archive("tool-v10.tar.gz")];
    assert_eq!(latest_report(&archives, "tool"), Ok("tool-v10"));
    assert_eq!(
        latest_report(&archives, "x"),
        Err("Unable to determine latest archive name for: x".to_string())
    );
}

#[test]
fn a_single_archive_needs_no_comparison() {
    let archives = vec![archive("tool-v99999999999.zip"), archive("other-v1.zip")];
    assert!(named_versions_comparable_in(&archives, "tool"));
    assert_eq!(latest_archive(&archives, "tool"), Some(0));
    let two = vec![archive("tool-v99999999999.zip"), archive("tool-v88888888888.zip")];
    assert!(!named_versions_comparable_in(&two, "tool"));
}

use dupr::entry::{FileEntry, Stats};
use dupr::group::{DuplicateGroup, DuplicateKey};
use dupr::report::{push_decimal, render_group, render_summary};
use dupr::walk::{can_yield, root_verdict, yield_entries, ScanError, WalkOutcome};

fn group(length: u64, paths: &[&str]) -> DuplicateGroup {
    DuplicateGroup {
        key: DuplicateKey { length, hash: 1 },
        paths: paths.iter().map(|p| p.to_string()).collect(),
    }
}

#[test]
fn summary_line_has_the_three_totals() {
    let stats = Stats { file_count: 3, total_size: 15, duplicate_count: 2 };
    assert_eq!(
        render_summary(&stats),
        "Processed 3 files with a total size of 15 bytes. 2 duplicates found."
    );
    assert_eq!(
        render_summary(&Stats::new()),
        "Processed 0 files with a total size of 0 bytes. 0 duplicates found."
    );
}

#[test]
fn group_is_one_path_per_line_by_default() {
    let g = group(5, &["dir/a.txt", "dir/b.txt"]);
    assert_eq!(render_group(&g, false, false), "dir/a.txt\ndir/b.txt\n\n");
}

#[test]
fn group_with_size_has_a_heading() {
    let g = group(5, &["a", "b"]);
    assert_eq!(render_group(&g, true, false), "5 bytes each:\na\nb\n\n");
    assert_eq!(render_group(&g, true, true), "5 bytes each:\na-b\n");
}

#[test]
fn group_on_one_line_joins_with_hyphen() {
    let g = group(1024, &["a", "b", "c"]);
    assert_eq!(render_group(&g, false, true), "a-b-c\n");
    assert_eq!(render_group(&group(0, &["only"]), false, true), "only\n");
    assert_eq!(render_group(&group(0, &[]), false, true), "\n");
}

#[test]
fn decimal_numerals_are_exact() {
    for n in [0u64, 7, 9, 10, 11, 99, 100, 1234567890, u64::MAX] {
        let mut text = String::from("n=");
        push_decimal(&mut text, n);
        assert_eq!(text, format!("n={}", n));
    }
}

#[test]
fn totals_that_would_run_over_are_detected() {
    let outcomes = vec![
        WalkOutcome::Regular(FileEntry::new("a".to_string(), 10)),
        WalkOutcome::NotRegular,
        WalkOutcome::Regular(FileEntry::new("b".to_string(), 0)),
    ];
    let roomy = Stats { file_count: u64::MAX - 2, total_size: u64::MAX - 10, duplicate_count: 0 };
    assert!(can_yield(&outcomes, false, &roomy));
    let crowded = Stats { file_count: u64::MAX - 1, total_size: 0, duplicate_count: 0 };
    assert!(!can_yield(&outcomes, false, &crowded));
    assert!(can_yield(&outcomes, true, &crowded));
    let heavy = Stats { file_count: 0, total_size: u64::MAX - 9, duplicate_count: 0 };
    assert!(!can_yield(&outcomes, false, &heavy));
    assert!(can_yield(&Vec::new(), false, &Stats { file_count: u64::MAX, total_size: u64::MAX, duplicate_count: 0 }));
}

#[test]
fn only_a_failure_of_the_root_ends_the_scan() {
    let fine = vec![
        WalkOutcome::Unlisted,
        WalkOutcome::NoMetadata,
        WalkOutcome::NotRegular,
        WalkOutcome::Regular(FileEntry::new("a".to_string(), 1)),
    ];
    assert_eq!(root_verdict(&fine), Ok(()));
    assert_eq!(root_verdict(&Vec::new()), Ok(()));
    let broken = vec![WalkOutcome::RootUnreadable];
    assert_eq!(root_verdict(&broken), Err(ScanError::RootUnreadable));
    let mut stats = Stats::new();
    assert!(yield_entries(&broken, false, &mut stats).is_empty());
    assert_eq!(stats.file_count, 0);
}

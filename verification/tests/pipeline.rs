use dupr::bucket::{bucket_by_size, collect_paths, SizeBucket};
use dupr::classify::classify;
use dupr::collapse::{collapse_hard_links, Resolved};
use dupr::entry::{FileEntry, FileIdentity, Stats};
use dupr::group::{count_duplicates, group_duplicates, DuplicateGroup, DuplicateKey, Hashed};
use dupr::hasher::{hash_bytes, ContentHasher, CHUNK_SIZE, DEFAULT_SEED};
use dupr::order::insert_path;
use dupr::walk::{accept, yield_entries, WalkOutcome};

struct Sample {
    path: &'static str,
    content: Option<Vec<u8>>,
    length: u64,
    identity: Option<FileIdentity>,
}

fn sample(path: &'static str, content: &[u8], device: u64, inode: u64) -> Sample {
    Sample {
        path,
        content: Some(content.to_vec()),
        length: content.len() as u64,
        identity: Some(FileIdentity { device, inode }),
    }
}

fn entry(path: &str, length: u64) -> FileEntry {
    FileEntry::new(path.to_string(), length)
}

fn scan(samples: &[Sample], noempty: bool) -> (Vec<DuplicateGroup>, Stats, Vec<String>) {
    let outcomes: Vec<WalkOutcome> =
        samples.iter().map(|s| WalkOutcome::Regular(entry(s.path, s.length))).collect();
    let mut stats = Stats::new();
    let buckets = collect_paths(&outcomes, noempty, &mut stats);
    let mut hashed: Vec<Hashed> = Vec::new();
    let mut read: Vec<String> = Vec::new();
    for bucket in &buckets {
        if !bucket.may_hold_duplicates() {
            continue;
        }
        let resolved: Vec<Resolved> = bucket
            .entries
            .iter()
            .map(|e| Resolved {
                entry: e.duplicate(),
                identity: samples.iter().find(|s| s.path == e.path).unwrap().identity,
            })
            .collect();
        for chosen in collapse_hard_links(&resolved) {
            let source = samples.iter().find(|s| s.path == chosen.path).unwrap();
            read.push(chosen.path.clone());
            let digest = source.content.as_ref().map(|bytes| hash_bytes(bytes));
            hashed.push(Hashed { entry: chosen, digest });
        }
    }
    let groups = group_duplicates(&hashed);
    stats.duplicate_count = count_duplicates(&groups).unwrap();
    (groups, stats, read)
}

fn paths(group: &DuplicateGroup) -> Vec<&str> {
    group.paths.iter().map(|p| p.as_str()).collect()
}

#[test]
fn equal_content_forms_one_group() {
    let samples = vec![
        sample("a.txt", b"hello", 1, 10),
        sample("b.txt", b"hello", 1, 11),
        sample("c.txt", b"world", 1, 12),
    ];
    let (groups, stats, _) = scan(&samples, false);
    assert_eq!(groups.len(), 1);
    assert_eq!(paths(&groups[0]), vec!["a.txt", "b.txt"]);
    assert_eq!(groups[0].key, DuplicateKey { length: 5, hash: hash_bytes(b"hello") });
    assert!(groups.iter().all(|g| !g.paths.iter().any(|p| p == "c.txt")));
    assert_eq!(stats.file_count, 3);
    assert_eq!(stats.total_size, 15);
    assert_eq!(stats.duplicate_count, 2);
}

#[test]
fn hard_link_is_reported_once() {
    let samples = vec![
        sample("x", b"same bytes", 7, 100),
        sample("y", b"same bytes", 7, 100),
        sample("z", b"same bytes", 7, 101),
    ];
    let (groups, stats, read) = scan(&samples, false);
    assert_eq!(read, vec!["x".to_string(), "z".to_string()]);
    assert_eq!(groups.len(), 1);
    assert_eq!(paths(&groups[0]), vec!["x", "z"]);
    assert_eq!(stats.file_count, 3);
    assert_eq!(stats.duplicate_count, 2);
}

#[test]
fn hard_links_alone_are_no_duplicates() {
    let samples = vec![sample("x", b"data", 7, 100), sample("y", b"data", 7, 100)];
    let (groups, _, read) = scan(&samples, false);
    assert!(read.is_empty());
    assert!(groups.is_empty());
}

#[test]
fn same_inode_on_other_device_is_another_file() {
    let samples = vec![sample("x", b"data", 7, 100), sample("y", b"data", 8, 100)];
    let (groups, _, read) = scan(&samples, false);
    assert_eq!(read.len(), 2);
    assert_eq!(groups.len(), 1);
    assert_eq!(paths(&groups[0]), vec!["x", "y"]);
}

#[test]
fn noempty_leaves_empty_files_out() {
    let samples = vec![sample("e1", b"", 1, 1), sample("e2", b"", 1, 2)];
    let (groups, stats, _) = scan(&samples, true);
    assert!(groups.is_empty());
    assert_eq!(stats.file_count, 0);
    assert_eq!(stats.total_size, 0);
    assert_eq!(stats.duplicate_count, 0);
}

#[test]
fn empty_files_are_duplicates_by_default() {
    let samples = vec![sample("e1", b"", 1, 1), sample("e2", b"", 1, 2)];
    let (groups, stats, _) = scan(&samples, false);
    assert_eq!(groups.len(), 1);
    assert_eq!(paths(&groups[0]), vec!["e1", "e2"]);
    assert_eq!(groups[0].key, DuplicateKey { length: 0, hash: 0xEF46DB3751D8E999 });
    assert_eq!(stats.file_count, 2);
}

#[test]
fn unreadable_file_is_skipped() {
    let mut locked = sample("locked", b"12345", 1, 1);
    locked.content = None;
    let samples = vec![locked, sample("p", b"abcde", 1, 2), sample("q", b"abcde", 1, 3)];
    let (groups, stats, read) = scan(&samples, false);
    assert_eq!(read.len(), 3);
    assert_eq!(groups.len(), 1);
    assert_eq!(paths(&groups[0]), vec!["p", "q"]);
    assert_eq!(stats.file_count, 3);
}

#[test]
fn file_without_identity_is_not_hashed() {
    let mut gone = sample("gone", b"abcde", 1, 1);
    gone.identity = None;
    let samples = vec![gone, sample("p", b"abcde", 1, 2), sample("q", b"abcde", 1, 3)];
    let (groups, _, read) = scan(&samples, false);
    assert_eq!(read, vec!["p".to_string(), "q".to_string()]);
    assert_eq!(groups.len(), 1);
    assert_eq!(paths(&groups[0]), vec!["p", "q"]);
}

#[test]
fn scanning_twice_gives_the_same_report() {
    let samples = vec![
        sample("a", b"one", 1, 1),
        sample("b", b"two", 1, 2),
        sample("c", b"one", 1, 3),
        sample("d", b"longer content", 1, 4),
        sample("e", b"longer content", 1, 5),
        sample("f", b"two", 1, 6),
    ];
    let (first, first_stats, _) = scan(&samples, false);
    let (second, second_stats, _) = scan(&samples, false);
    assert_eq!(first.len(), 3);
    assert_eq!(first.len(), second.len());
    for (g, h) in first.iter().zip(second.iter()) {
        assert_eq!(g.key, h.key);
        assert_eq!(g.paths, h.paths);
    }
    assert_eq!(first_stats, second_stats);
    assert_eq!(first_stats.duplicate_count, 6);
}

#[test]
fn groups_come_out_in_key_order() {
    let items = vec![
        Hashed { entry: entry("big1", 9), digest: Some(1) },
        Hashed { entry: entry("s-high1", 3), digest: Some(50) },
        Hashed { entry: entry("s-low1", 3), digest: Some(20) },
        Hashed { entry: entry("big2", 9), digest: Some(1) },
        Hashed { entry: entry("s-low2", 3), digest: Some(20) },
        Hashed { entry: entry("s-high2", 3), digest: Some(50) },
        Hashed { entry: entry("single", 3), digest: Some(99) },
        Hashed { entry: entry("s-low3", 3), digest: Some(20) },
    ];
    let groups = group_duplicates(&items);
    let keys: Vec<(u64, u64)> = groups.iter().map(|g| (g.key.length, g.key.hash)).collect();
    assert_eq!(keys, vec![(3, 20), (3, 50), (9, 1)]);
    assert_eq!(paths(&groups[0]), vec!["s-low1", "s-low2", "s-low3"]);
    assert_eq!(paths(&groups[1]), vec!["s-high1", "s-high2"]);
    assert_eq!(paths(&groups[2]), vec!["big1", "big2"]);
    assert_eq!(count_duplicates(&groups), Some(7));
}

#[test]
fn same_digest_with_other_length_is_no_duplicate() {
    let items = vec![
        Hashed { entry: entry("a", 1), digest: Some(5) },
        Hashed { entry: entry("b", 2), digest: Some(5) },
    ];
    assert!(group_duplicates(&items).is_empty());
}

#[test]
fn unread_files_share_no_group() {
    let items = vec![
        Hashed { entry: entry("a", 1), digest: None },
        Hashed { entry: entry("b", 1), digest: None },
    ];
    let groups = group_duplicates(&items);
    assert!(groups.is_empty());
    assert_eq!(count_duplicates(&groups), Some(0));
}

#[test]
fn walk_yields_only_regular_files() {
    let outcomes = vec![
        WalkOutcome::Unlisted,
        WalkOutcome::Regular(entry("a", 4)),
        WalkOutcome::NotRegular,
        WalkOutcome::NoMetadata,
        WalkOutcome::Regular(entry("empty", 0)),
        WalkOutcome::Regular(entry("b", 6)),
    ];
    let mut stats = Stats::new();
    let entries = yield_entries(&outcomes, false, &mut stats);
    assert_eq!(entries, vec![entry("a", 4), entry("empty", 0), entry("b", 6)]);
    assert_eq!(stats, Stats { file_count: 3, total_size: 10, duplicate_count: 0 });

    let mut stats = Stats { file_count: 5, total_size: 100, duplicate_count: 2 };
    let entries = yield_entries(&outcomes, true, &mut stats);
    assert_eq!(entries, vec![entry("a", 4), entry("b", 6)]);
    assert_eq!(stats, Stats { file_count: 7, total_size: 110, duplicate_count: 2 });
}

#[test]
fn accept_decides_one_entry() {
    assert_eq!(accept(&WalkOutcome::Unlisted, false), None);
    assert_eq!(accept(&WalkOutcome::NotRegular, false), None);
    assert_eq!(accept(&WalkOutcome::NoMetadata, true), None);
    assert_eq!(accept(&WalkOutcome::Regular(entry("e", 0)), true), None);
    assert_eq!(accept(&WalkOutcome::Regular(entry("e", 0)), false), Some(entry("e", 0)));
    assert_eq!(accept(&WalkOutcome::Regular(entry("f", 1)), true), Some(entry("f", 1)));
}

#[test]
fn stats_start_at_zero_and_count_files() {
    let mut stats = Stats::new();
    assert_eq!(stats, Stats::default());
    assert_eq!(stats, Stats { file_count: 0, total_size: 0, duplicate_count: 0 });
    stats.record_file(7);
    stats.record_file(0);
    stats.record_file(u64::MAX - 7);
    assert_eq!(stats, Stats { file_count: 3, total_size: u64::MAX, duplicate_count: 0 });
}

#[test]
fn buckets_hold_files_by_length_in_order() {
    let entries = vec![entry("a", 5), entry("b", 2), entry("c", 5), entry("d", 0), entry("e", 2), entry("f", 5)];
    let buckets: Vec<SizeBucket> = bucket_by_size(&entries);
    let lengths: Vec<u64> = buckets.iter().map(|b| b.length).collect();
    assert_eq!(lengths, vec![0, 2, 5]);
    assert_eq!(buckets[0].entries, vec![entry("d", 0)]);
    assert_eq!(buckets[1].entries, vec![entry("b", 2), entry("e", 2)]);
    assert_eq!(buckets[2].entries, vec![entry("a", 5), entry("c", 5), entry("f", 5)]);
    assert!(bucket_by_size(&Vec::new()).is_empty());
}

#[test]
fn classify_partitions_positions() {
    let keys = vec![Some((2, 1)), None, Some((1, 9)), Some((2, 0)), Some((2, 1)), Some((1, 9)), None];
    let classes = classify(&keys);
    let seen: Vec<((u64, u64), Vec<usize>)> =
        classes.iter().map(|c| (c.key, c.members.clone())).collect();
    assert_eq!(seen, vec![((1, 9), vec![2, 5]), ((2, 0), vec![3]), ((2, 1), vec![0, 4])]);
}

#[test]
fn collapse_keeps_first_path_of_each_object() {
    let id = |device, inode| Some(FileIdentity { device, inode });
    let items = vec![
        Resolved { entry: entry("a", 3), identity: id(1, 1) },
        Resolved { entry: entry("b", 3), identity: id(1, 2) },
        Resolved { entry: entry("a-link", 3), identity: id(1, 1) },
        Resolved { entry: entry("vanished", 3), identity: None },
        Resolved { entry: entry("b-link", 3), identity: id(1, 2) },
        Resolved { entry: entry("c", 3), identity: id(2, 1) },
    ];
    assert_eq!(collapse_hard_links(&items), vec![entry("a", 3), entry("b", 3), entry("c", 3)]);
    let alone = vec![Resolved { entry: entry("a", 3), identity: id(1, 1) }];
    assert!(collapse_hard_links(&alone).is_empty());
    assert!(collapse_hard_links(&Vec::new()).is_empty());
}

#[test]
fn digest_matches_known_values() {
    assert_eq!(DEFAULT_SEED, 0);
    assert_eq!(hash_bytes(b""), 0xEF46DB3751D8E999);
    assert_eq!(hash_bytes(b"a"), 0xD24EC4F1A98C6E5B);
    assert_eq!(hash_bytes(b"abc"), 0x44BC2CF5AD770999);
    assert_ne!(hash_bytes(b"hello"), hash_bytes(b"world"));
}

#[test]
fn digest_does_not_depend_on_chunking() {
    let data: Vec<u8> = (0..(2 * CHUNK_SIZE + 1234)).map(|i| (i % 251) as u8).collect();
    let whole = hash_bytes(&data);
    let mut hasher = ContentHasher::new();
    for piece in data.chunks(1000) {
        assert!(hasher.update(piece));
    }
    assert_eq!(hasher.len(), data.len() as u64);
    assert_eq!(hasher.digest(), whole);
    let mut once = ContentHasher::with_seed(0);
    assert!(once.update(&data));
    assert_eq!(once.digest(), whole);
}

#[test]
fn digest_depends_on_seed_and_input() {
    let mut plain = ContentHasher::with_seed(0);
    let mut seeded = ContentHasher::with_seed(1);
    assert_ne!(plain.digest(), seeded.digest());
    assert!(plain.update(b"abc"));
    assert!(seeded.update(b"abc"));
    assert_eq!(plain.digest(), 0x44BC2CF5AD770999);
    assert_ne!(plain.digest(), seeded.digest());
    assert_eq!(plain.len(), 3);
}

#[test]
fn every_member_has_the_key_of_its_group() {
    let samples = vec![
        sample("a", b"alpha", 1, 1),
        sample("b", b"bravo", 1, 2),
        sample("c", b"alpha", 1, 3),
        sample("d", b"bravo", 1, 4),
        sample("e", b"delta", 1, 5),
        sample("f", b"xy", 1, 6),
        sample("g", b"xy", 1, 7),
    ];
    let (groups, _, _) = scan(&samples, false);
    assert_eq!(groups.len(), 3);
    let mut listed: Vec<&str> = Vec::new();
    for group in &groups {
        assert!(group.paths.len() >= 2);
        for path in &group.paths {
            let source = samples.iter().find(|s| s.path == path).unwrap();
            assert_eq!(source.length, group.key.length);
            assert_eq!(hash_bytes(source.content.as_ref().unwrap()), group.key.hash);
            assert!(!listed.contains(&path.as_str()));
            listed.push(path.as_str());
        }
    }
    assert_eq!(listed.len(), 6);
    assert!(!listed.contains(&"e"));
    assert_eq!(groups[0].key.length, 2);
}

#[test]
fn single_file_bucket_needs_no_work() {
    let buckets = bucket_by_size(&vec![entry("a", 1), entry("b", 2), entry("c", 2)]);
    assert!(!buckets[0].may_hold_duplicates());
    assert!(buckets[1].may_hold_duplicates());
}

#[test]
fn collect_paths_counts_what_it_buckets() {
    let outcomes = vec![
        WalkOutcome::Regular(entry("a", 3)),
        WalkOutcome::NotRegular,
        WalkOutcome::Regular(entry("b", 0)),
        WalkOutcome::Regular(entry("c", 3)),
    ];
    let mut stats = Stats::new();
    let buckets = collect_paths(&outcomes, true, &mut stats);
    assert_eq!(buckets.len(), 1);
    assert_eq!(buckets[0].length, 3);
    assert_eq!(buckets[0].entries, vec![entry("a", 3), entry("c", 3)]);
    assert_eq!(stats, Stats { file_count: 2, total_size: 6, duplicate_count: 0 });
    let held: usize = buckets.iter().map(|b| b.entries.len()).sum();
    assert_eq!(stats.file_count, held as u64);
}

#[test]
fn paths_of_a_group_come_out_ascending() {
    let items = vec![
        Hashed { entry: entry("r/b", 4), digest: Some(9) },
        Hashed { entry: entry("r/a", 4), digest: Some(9) },
    ];
    let groups = group_duplicates(&items);
    assert_eq!(groups.len(), 1);
    assert_eq!(paths(&groups[0]), vec!["r/a", "r/b"]);

    let items = vec![
        Hashed { entry: entry("a/b", 1), digest: Some(1) },
        Hashed { entry: entry("ab", 1), digest: Some(1) },
        Hashed { entry: entry("a", 1), digest: Some(1) },
        Hashed { entry: entry("a-b", 1), digest: Some(1) },
        Hashed { entry: entry("é", 1), digest: Some(1) },
        Hashed { entry: entry("z", 1), digest: Some(1) },
        Hashed { entry: entry("", 1), digest: Some(1) },
        Hashed { entry: entry("B", 1), digest: Some(1) },
    ];
    let groups = group_duplicates(&items);
    assert_eq!(groups.len(), 1);
    assert_eq!(paths(&groups[0]), vec!["", "B", "a", "a-b", "a/b", "ab", "z", "é"]);
    assert_eq!(count_duplicates(&groups), Some(8));
}

#[test]
fn a_path_hashed_twice_is_listed_once() {
    let twice = vec![
        Hashed { entry: entry("same", 4), digest: Some(9) },
        Hashed { entry: entry("same", 4), digest: Some(9) },
    ];
    assert!(group_duplicates(&twice).is_empty());

    let items = vec![
        Hashed { entry: entry("q", 4), digest: Some(9) },
        Hashed { entry: entry("p", 4), digest: Some(9) },
        Hashed { entry: entry("q", 4), digest: Some(9) },
        Hashed { entry: entry("p", 4), digest: Some(9) },
    ];
    let groups = group_duplicates(&items);
    assert_eq!(groups.len(), 1);
    assert_eq!(paths(&groups[0]), vec!["p", "q"]);
    assert_eq!(count_duplicates(&groups), Some(2));
}

#[test]
fn insert_path_keeps_the_list_ascending_and_distinct() {
    let mut list: Vec<String> = Vec::new();
    assert!(insert_path(&mut list, &"m".to_string()));
    assert!(insert_path(&mut list, &"z".to_string()));
    assert!(insert_path(&mut list, &"a".to_string()));
    assert!(!insert_path(&mut list, &"m".to_string()));
    assert!(insert_path(&mut list, &"mm".to_string()));
    assert!(!insert_path(&mut list, &"a".to_string()));
    assert_eq!(list, vec!["a", "m", "mm", "z"]);
}

#[test]
fn walk_order_does_not_change_the_report() {
    let forward = vec![sample("d/1", b"k", 1, 1), sample("d/2", b"k", 1, 2), sample("d/3", b"k", 1, 3)];
    let backward = vec![sample("d/3", b"k", 1, 3), sample("d/2", b"k", 1, 2), sample("d/1", b"k", 1, 1)];
    let (first, _, _) = scan(&forward, false);
    let (second, _, _) = scan(&backward, false);
    assert_eq!(first.len(), 1);
    assert_eq!(paths(&first[0]), vec!["d/1", "d/2", "d/3"]);
    assert_eq!(paths(&first[0]), paths(&second[0]));
}

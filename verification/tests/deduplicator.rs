use deduplicator::deduplicator::Deduplicator;
use deduplicator::report::{order_groups, Summary};
use deduplicator::digest::sha256_digest;
use deduplicator::entry::FileEntry;
use deduplicator::options::{FileOrdering, Keep, Options};
use deduplicator::selection::MetadataMissing;

fn file(id: usize, name: &str, size: u64, modified: Option<i128>) -> FileEntry {
    FileEntry {
        id,
        path: format!("/data/{name}"),
        name: name.as_bytes().to_vec(),
        size,
        modified,
        created: Some(100 - id as i128),
    }
}

fn digest(content: &[u8]) -> Option<Vec<u8>> {
    sha256_digest(&vec![content.to_vec()])
}

fn options() -> Options {
    Options::new("/data".to_string(), 4)
}

fn ids(entries: &[&FileEntry]) -> Vec<usize> {
    entries.iter().map(|e| e.id).collect()
}

/// Digests for every bucket from the content of each file by id.
fn digests_for(engine: &Deduplicator, contents: &[Option<&[u8]>]) -> Vec<Vec<Option<Vec<u8>>>> {
    engine
        .buckets()
        .iter()
        .map(|bucket| {
            if bucket.len() < 2 {
                Vec::new()
            } else {
                bucket.iter().map(|e| contents[e.id].and_then(digest)).collect()
            }
        })
        .collect()
}

#[test]
fn files_are_bucketed_by_size_in_arrival_order() {
    let mut engine = Deduplicator::new(options());
    engine.collect(vec![
        Some(file(0, "a", 10, Some(1))),
        None,
        Some(file(1, "b", 20, Some(1))),
        Some(file(2, "c", 10, Some(1))),
        Some(file(3, "d", 30, Some(1))),
        None,
        Some(file(4, "e", 20, Some(1))),
        Some(file(5, "f", 10, Some(1))),
    ]);
    let buckets: Vec<Vec<usize>> = engine.buckets().iter().map(|b| ids(b)).collect();
    assert_eq!(buckets, vec![vec![0, 2, 5], vec![1, 4], vec![3]]);
}

#[test]
fn collecting_in_steps_is_collecting_at_once() {
    let mut stepwise = Deduplicator::new(options());
    stepwise.record(Some(file(0, "a", 1, None)));
    stepwise.record(None);
    stepwise.collect(vec![Some(file(1, "b", 2, None)), Some(file(2, "c", 1, None))]);
    stepwise.record(Some(file(3, "d", 2, None)));
    let mut at_once = Deduplicator::new(options());
    at_once.collect(vec![
        Some(file(0, "a", 1, None)),
        None,
        Some(file(1, "b", 2, None)),
        Some(file(2, "c", 1, None)),
        Some(file(3, "d", 2, None)),
    ]);
    let left: Vec<Vec<usize>> = stepwise.buckets().iter().map(|b| ids(b)).collect();
    let right: Vec<Vec<usize>> = at_once.buckets().iter().map(|b| ids(b)).collect();
    assert_eq!(left, right);
    assert_eq!(left, vec![vec![0, 2], vec![1, 3]]);
}

#[test]
fn an_engine_without_files_reports_nothing() {
    let engine = Deduplicator::new(options());
    assert!(engine.buckets().is_empty());
    let report = engine.consume(&Vec::new());
    assert!(report.groups.is_empty());
    assert_eq!(
        report.summary,
        Summary { duplicate_groups: 0, duplicate_count: 0, collision_count: 0, space_saved: 0 }
    );
}

#[test]
fn three_identical_files_make_one_group_and_one_collision() {
    let mut engine = Deduplicator::new(options());
    engine.collect(vec![
        Some(file(0, "a.txt", 5, Some(40))),
        Some(file(1, "b.txt", 5, Some(30))),
        Some(file(2, "c.txt", 5, Some(20))),
        Some(file(3, "d.txt", 5, Some(10))),
        Some(file(4, "e.txt", 9, Some(10))),
    ]);
    let contents: [Option<&[u8]>; 5] =
        [Some(b"hello"), Some(b"hello"), Some(b"hello"), Some(b"world"), Some(b"unrivaled")];
    let digests = digests_for(&engine, &contents);
    assert_eq!(digests[1], Vec::<Option<Vec<u8>>>::new());
    let report = engine.consume(&digests);
    assert_eq!(report.groups.len(), 1);
    assert_eq!(ids(&report.groups[0].members), vec![0, 1, 2]);
    let selection = report.groups[0].selection.as_ref().unwrap();
    assert_eq!(selection.source.id, 2);
    assert_eq!(ids(&selection.duplicates), vec![1, 0]);
    assert_eq!(
        report.summary,
        Summary { duplicate_groups: 1, duplicate_count: 3, collision_count: 1, space_saved: 10 }
    );
}

#[test]
fn a_quiet_run_has_the_same_summary() {
    let mut quiet = options();
    quiet.quiet = true;
    let mut engine = Deduplicator::new(quiet);
    engine.collect(vec![Some(file(0, "a", 7, Some(1))), Some(file(1, "b", 7, Some(2)))]);
    let digests = digests_for(&engine, &[Some(b"content"), Some(b"content")]);
    let report = engine.consume(&digests);
    assert_eq!(
        report.summary,
        Summary { duplicate_groups: 1, duplicate_count: 2, collision_count: 0, space_saved: 7 }
    );
}

#[test]
fn space_is_size_times_duplicates_over_all_groups() {
    let mut engine = Deduplicator::new(options());
    engine.collect(vec![
        Some(file(0, "a", 1000, Some(1))),
        Some(file(1, "b", 1000, Some(2))),
        Some(file(2, "c", 1000, Some(3))),
        Some(file(3, "d", u64::MAX, Some(4))),
        Some(file(4, "e", u64::MAX, Some(5))),
        Some(file(5, "f", 1000, Some(6))),
        Some(file(6, "g", 1000, Some(7))),
    ]);
    let contents: [Option<&[u8]>; 7] =
        [Some(b"x"), Some(b"x"), Some(b"x"), Some(b"big"), Some(b"big"), Some(b"y"), Some(b"y")];
    let report = engine.consume(&digests_for(&engine, &contents));
    let groups: Vec<Vec<usize>> = report.groups.iter().map(|g| ids(&g.members)).collect();
    assert_eq!(groups, vec![vec![0, 1, 2], vec![5, 6], vec![3, 4]]);
    assert_eq!(report.summary.duplicate_groups, 3);
    assert_eq!(report.summary.duplicate_count, 7);
    assert_eq!(report.summary.collision_count, 0);
    assert_eq!(report.summary.space_saved, 3000 + u64::MAX as u128);
}

#[test]
fn keep_and_order_of_the_run_decide_the_source() {
    let mut by_name = options();
    by_name.order = FileOrdering::Name;
    by_name.keep = Keep::Last;
    let mut engine = Deduplicator::new(by_name);
    engine.collect(vec![
        Some(file(0, "y.jpg", 3, None)),
        Some(file(1, "z.jpg", 3, None)),
        Some(file(2, "x.jpg", 3, None)),
    ]);
    let contents: [Option<&[u8]>; 3] = [Some(b"jpg"), Some(b"jpg"), Some(b"jpg")];
    let report = engine.consume(&digests_for(&engine, &contents));
    let selection = report.groups[0].selection.as_ref().unwrap();
    assert_eq!(selection.source.id, 1);
    assert_eq!(ids(&selection.duplicates), vec![2, 0]);
    let group = report.groups[0].members.clone();
    let again = engine.select(&group).unwrap();
    assert_eq!(again.source.id, 1);
    assert_eq!(ids(&again.duplicates), vec![2, 0]);
}

#[test]
fn a_group_without_timestamps_fails_alone() {
    let mut engine = Deduplicator::new(options());
    engine.collect(vec![
        Some(file(0, "a", 1, Some(5))),
        Some(file(1, "b", 1, None)),
        Some(file(2, "c", 2, Some(7))),
        Some(file(3, "d", 2, Some(6))),
    ]);
    let contents: [Option<&[u8]>; 4] = [Some(b"1"), Some(b"1"), Some(b"22"), Some(b"22")];
    let report = engine.consume(&digests_for(&engine, &contents));
    assert_eq!(report.groups.len(), 2);
    assert_eq!(report.groups[0].selection.as_ref().unwrap_err(), &MetadataMissing { position: 1 });
    assert_eq!(ids(&report.groups[0].members), vec![0, 1]);
    let second = report.groups[1].selection.as_ref().unwrap();
    assert_eq!(second.source.id, 3);
    assert_eq!(ids(&second.duplicates), vec![2]);
    assert_eq!(report.summary.duplicate_groups, 2);
    assert_eq!(report.summary.duplicate_count, 4);
    assert_eq!(report.summary.space_saved, 3);
}

#[test]
fn output_is_sorted_by_the_key_of_the_last_member() {
    let mut sorted = options();
    sorted.sort_output = Some(FileOrdering::Modified);
    let mut engine = Deduplicator::new(sorted);
    engine.collect(vec![
        Some(file(0, "a", 1, Some(1))),
        Some(file(1, "b", 1, Some(90))),
        Some(file(2, "c", 2, Some(80))),
        Some(file(3, "d", 2, Some(20))),
        Some(file(4, "e", 3, Some(50))),
        Some(file(5, "f", 3, Some(20))),
    ]);
    let contents: [Option<&[u8]>; 6] =
        [Some(b"1"), Some(b"1"), Some(b"22"), Some(b"22"), Some(b"333"), Some(b"333")];
    let digests = digests_for(&engine, &contents);
    let report = engine.consume(&digests);
    let groups: Vec<Vec<usize>> = report.groups.iter().map(|g| ids(&g.members)).collect();
    assert_eq!(groups, vec![vec![2, 3], vec![4, 5], vec![0, 1]]);

    let mut by_name = options();
    by_name.sort_output = Some(FileOrdering::Name);
    let mut engine = Deduplicator::new(by_name);
    engine.collect(vec![
        Some(file(0, "a", 1, Some(1))),
        Some(file(1, "z", 1, Some(1))),
        Some(file(2, "c", 2, Some(1))),
        Some(file(3, "b", 2, Some(1))),
    ]);
    let contents: [Option<&[u8]>; 4] = [Some(b"1"), Some(b"1"), Some(b"22"), Some(b"22")];
    let report = engine.consume(&digests_for(&engine, &contents));
    let groups: Vec<Vec<usize>> = report.groups.iter().map(|g| ids(&g.members)).collect();
    assert_eq!(groups, vec![vec![2, 3], vec![0, 1]]);
}

#[test]
fn a_group_that_cannot_be_placed_stands_behind_the_others() {
    let mut sorted = options();
    sorted.sort_output = Some(FileOrdering::Modified);
    sorted.order = FileOrdering::Name;
    let mut engine = Deduplicator::new(sorted);
    engine.collect(vec![
        Some(file(0, "a", 1, Some(9))),
        Some(file(1, "b", 1, None)),
        Some(file(2, "c", 2, Some(8))),
        Some(file(3, "d", 2, Some(7))),
        Some(file(4, "e", 3, None)),
        Some(file(5, "f", 3, None)),
        Some(file(6, "g", 4, None)),
        Some(file(7, "h", 4, Some(5))),
    ]);
    let contents: [Option<&[u8]>; 8] = [
        Some(b"1"),
        Some(b"1"),
        Some(b"22"),
        Some(b"22"),
        Some(b"333"),
        Some(b"333"),
        Some(b"4444"),
        Some(b"4444"),
    ];
    let report = engine.consume(&digests_for(&engine, &contents));
    let groups: Vec<Vec<usize>> = report.groups.iter().map(|g| ids(&g.members)).collect();
    assert_eq!(groups, vec![vec![6, 7], vec![2, 3], vec![0, 1], vec![4, 5]]);
    assert!(report.groups.iter().all(|g| g.selection.is_ok()));
    assert_eq!(
        report.summary,
        Summary { duplicate_groups: 4, duplicate_count: 8, collision_count: 0, space_saved: 10 }
    );
}

#[test]
fn a_missing_timestamp_stays_with_its_group() {
    let mut deleting = options();
    deleting.delete = true;
    deleting.sort_output = Some(FileOrdering::Modified);
    let mut engine = Deduplicator::new(deleting);
    engine.collect(vec![
        Some(file(0, "a", 1, None)),
        Some(file(1, "b", 1, None)),
        Some(file(2, "c", 2, Some(8))),
        Some(file(3, "d", 2, Some(7))),
    ]);
    let contents: [Option<&[u8]>; 4] = [Some(b"1"), Some(b"1"), Some(b"22"), Some(b"22")];
    let report = engine.consume(&digests_for(&engine, &contents));
    assert_eq!(report.groups.len(), 2);
    assert_eq!(ids(&report.groups[0].members), vec![2, 3]);
    let split = report.groups[0].selection.as_ref().unwrap();
    assert_eq!(split.source.id, 3);
    assert_eq!(ids(&split.duplicates), vec![2]);
    assert_eq!(ids(&report.groups[1].members), vec![0, 1]);
    assert_eq!(report.groups[1].selection.as_ref().unwrap_err(), &MetadataMissing { position: 0 });
    assert_eq!(ids(&engine.deletions(&report)), vec![2]);
    assert_eq!(
        report.summary,
        Summary { duplicate_groups: 2, duplicate_count: 4, collision_count: 0, space_saved: 3 }
    );
}

#[test]
fn order_groups_keeps_ties_in_place() {
    let files: Vec<FileEntry> = vec![
        file(0, "a", 1, Some(5)),
        file(1, "b", 1, Some(7)),
        file(2, "c", 2, Some(9)),
        file(3, "d", 2, Some(3)),
        file(4, "e", 3, Some(1)),
        file(5, "f", 3, Some(7)),
    ];
    let groups = vec![vec![&files[0], &files[1]], vec![&files[2], &files[3]], vec![&files[4], &files[5]]];
    let ordered = order_groups(groups.clone(), Some(FileOrdering::Modified));
    let got: Vec<Vec<usize>> = ordered.iter().map(|g| ids(g)).collect();
    assert_eq!(got, vec![vec![2, 3], vec![0, 1], vec![4, 5]]);
    let unsorted = order_groups(groups, None);
    let got: Vec<Vec<usize>> = unsorted.iter().map(|g| ids(g)).collect();
    assert_eq!(got, vec![vec![0, 1], vec![2, 3], vec![4, 5]]);
}

#[test]
fn find_groups_goes_bucket_by_bucket() {
    let mut engine = Deduplicator::new(options());
    engine.collect(vec![
        Some(file(0, "a", 1, None)),
        Some(file(1, "b", 2, None)),
        Some(file(2, "c", 1, None)),
        Some(file(3, "d", 2, None)),
        Some(file(4, "e", 2, None)),
        Some(file(5, "f", 1, None)),
        Some(file(6, "g", 3, None)),
    ]);
    let contents: [Option<&[u8]>; 7] =
        [Some(b"p"), Some(b"qq"), Some(b"r"), Some(b"qq"), None, Some(b"p"), Some(b"sss")];
    let (groups, collisions) = engine.find_groups(&digests_for(&engine, &contents));
    let got: Vec<Vec<usize>> = groups.iter().map(|g| ids(g)).collect();
    assert_eq!(got, vec![vec![0, 5], vec![1, 3]]);
    assert_eq!(collisions, 1);
}

#[test]
fn only_duplicates_are_given_up_for_removal() {
    let mut deleting = options();
    deleting.delete = true;
    deleting.order = FileOrdering::Modified;
    let mut engine = Deduplicator::new(deleting);
    engine.collect(vec![
        Some(file(0, "a", 1, Some(3))),
        Some(file(1, "b", 1, Some(1))),
        Some(file(2, "c", 1, Some(2))),
        Some(file(3, "d", 2, Some(1))),
        Some(file(4, "e", 2, None)),
        Some(file(5, "f", 3, Some(2))),
        Some(file(6, "g", 3, Some(1))),
    ]);
    let contents: [Option<&[u8]>; 7] =
        [Some(b"1"), Some(b"1"), Some(b"1"), Some(b"22"), Some(b"22"), Some(b"333"), Some(b"333")];
    let report = engine.consume(&digests_for(&engine, &contents));
    assert_eq!(ids(&engine.deletions(&report)), vec![2, 0, 5]);

    let mut keeping = Deduplicator::new(options());
    keeping.collect(vec![Some(file(0, "a", 1, Some(3))), Some(file(1, "b", 1, Some(1)))]);
    let contents: [Option<&[u8]>; 2] = [Some(b"1"), Some(b"1")];
    let report = keeping.consume(&digests_for(&keeping, &contents));
    assert_eq!(report.groups.len(), 1);
    assert!(keeping.deletions(&report).is_empty());
}

#[test]
fn paths_are_shown_relative_to_the_root() {
    let engine = Deduplicator::new(options());
    assert_eq!(engine.shorten_path("/data/a.txt"), "a.txt");
    assert_eq!(engine.shorten_path("/data/sub/dir/b.txt"), "sub/dir/b.txt");
    assert_eq!(engine.shorten_path("/data/"), "");
    assert_eq!(engine.shorten_path("/data"), "");
    assert_eq!(engine.shorten_path(""), "");
    assert_eq!(engine.shorten_path("/elsewhere/c.txt"), "here/c.txt");
    let accented = Deduplicator::new(Options::new("/d\u{e9}j\u{e0}".to_string(), 1));
    assert_eq!(accented.shorten_path("/d\u{e9}j\u{e0}/vu\u{2026}.txt"), "vu\u{2026}.txt");
}

#[test]
fn a_whole_run_records_and_reports() {
    let mut engine = Deduplicator::new(options());
    let results = vec![
        Some(file(0, "a.txt", 5, Some(4))),
        Some(file(1, "b.txt", 5, Some(3))),
        None,
        Some(file(2, "c.txt", 5, Some(2))),
        Some(file(3, "d.txt", 5, Some(1))),
        Some(file(4, "e.txt", 6, Some(0))),
    ];
    let digests = vec![vec![digest(b"hello"), digest(b"hello"), digest(b"hello"), digest(b"world")], Vec::new()];
    let report = engine.execute(results, &digests);
    assert_eq!(report.groups.len(), 1);
    assert_eq!(ids(&report.groups[0].members), vec![0, 1, 2]);
    let selection = report.groups[0].selection.as_ref().unwrap();
    assert_eq!(selection.source.id, 2);
    assert_eq!(ids(&selection.duplicates), vec![1, 0]);
    assert_eq!(
        report.summary,
        Summary { duplicate_groups: 1, duplicate_count: 3, collision_count: 1, space_saved: 10 }
    );
}

#[test]
fn only_buckets_with_several_files_need_digests() {
    let mut engine = Deduplicator::new(options());
    assert_eq!(engine.needs_digest(), Vec::<bool>::new());
    engine.collect(vec![
        Some(file(0, "a", 1, None)),
        Some(file(1, "b", 2, None)),
        Some(file(2, "c", 1, None)),
        Some(file(3, "d", 3, None)),
        Some(file(4, "e", 1, None)),
        Some(file(5, "f", 4, None)),
        Some(file(6, "g", 4, None)),
    ]);
    assert_eq!(engine.needs_digest(), vec![true, false, false, true]);
}

#[test]
fn another_order_of_arrival_gives_the_same_outcome() {
    let sizes: [u64; 9] = [5, 7, 5, 5, 7, 9, 5, 7, 9];
    let contents: [Option<&[u8]>; 9] = [
        Some(b"hello"),
        Some(b"goodbye"),
        Some(b"hello"),
        Some(b"world"),
        Some(b"goodbye"),
        Some(b"unrivaled"),
        None,
        Some(b"welcome"),
        Some(b"unequaled"),
    ];
    let orders: [[usize; 9]; 3] =
        [[0, 1, 2, 3, 4, 5, 6, 7, 8], [8, 7, 6, 5, 4, 3, 2, 1, 0], [4, 0, 8, 2, 6, 1, 7, 3, 5]];
    let mut outcomes = Vec::new();
    for order in orders {
        let mut engine = Deduplicator::new(options());
        engine.collect(order.iter().map(|&i| Some(file(i, &format!("f{i}"), sizes[i], Some(i as i128)))).collect());
        let report = engine.consume(&digests_for(&engine, &contents));
        let mut groups: Vec<Vec<usize>> = report
            .groups
            .iter()
            .map(|g| {
                let mut members = ids(&g.members);
                members.sort();
                members
            })
            .collect();
        groups.sort();
        outcomes.push((groups, report.summary));
    }
    assert_eq!(outcomes[0], outcomes[1]);
    assert_eq!(outcomes[0], outcomes[2]);
    assert_eq!(outcomes[0].0, vec![vec![0, 2], vec![1, 4]]);
    assert_eq!(
        outcomes[0].1,
        Summary { duplicate_groups: 2, duplicate_count: 4, collision_count: 4, space_saved: 12 }
    );
}

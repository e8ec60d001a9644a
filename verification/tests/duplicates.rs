use deduplicator::deduplicator::Deduplicator;
use deduplicator::digest::sha256_digest;
use deduplicator::duplicates::{bytes_equal, group_positions, short_key_of};
use deduplicator::entry::FileEntry;

fn file(id: usize, name: &str, size: u64) -> FileEntry {
    FileEntry {
        id,
        path: format!("/data/{name}"),
        name: name.as_bytes().to_vec(),
        size,
        modified: Some(id as i128),
        created: Some(id as i128),
    }
}

fn digest(content: &[u8]) -> Option<Vec<u8>> {
    sha256_digest(&vec![content.to_vec()])
}

fn names(groups: &[Vec<&FileEntry>]) -> Vec<Vec<String>> {
    groups
        .iter()
        .map(|g| g.iter().map(|e| String::from_utf8(e.name.clone()).unwrap()).collect())
        .collect()
}

#[test]
fn three_identical_files_and_one_of_the_same_size() {
    let files = vec![file(0, "a.txt", 5), file(1, "b.txt", 5), file(2, "c.txt", 5), file(3, "d.txt", 5)];
    let refs: Vec<&FileEntry> = files.iter().collect();
    let digests = vec![digest(b"hello"), digest(b"hello"), digest(b"hello"), digest(b"world")];
    let (groups, collisions) = Deduplicator::get_true_dupes(&refs, &digests);
    assert_eq!(names(&groups), vec![vec!["a.txt", "b.txt", "c.txt"]]);
    assert_eq!(collisions, 1);
}

#[test]
fn same_size_but_different_content_is_no_group() {
    let files = vec![file(0, "a", 3), file(1, "b", 3), file(2, "c", 3)];
    let refs: Vec<&FileEntry> = files.iter().collect();
    let digests = vec![digest(b"abc"), digest(b"abd"), digest(b"abe")];
    let (groups, collisions) = Deduplicator::get_true_dupes(&refs, &digests);
    assert!(groups.is_empty());
    assert_eq!(collisions, 3);
}

#[test]
fn a_file_alone_with_its_size_is_neither_group_nor_collision() {
    let files = vec![file(0, "only", 3)];
    let refs: Vec<&FileEntry> = files.iter().collect();
    let (groups, collisions) = Deduplicator::get_true_dupes(&refs, &vec![digest(b"abc")]);
    assert!(groups.is_empty());
    assert_eq!(collisions, 0);
    let (groups, collisions) = Deduplicator::get_true_dupes(&refs, &Vec::new());
    assert!(groups.is_empty());
    assert_eq!(collisions, 0);
}

#[test]
fn no_files_give_nothing() {
    let (groups, collisions) = Deduplicator::get_true_dupes(&Vec::new(), &Vec::new());
    assert!(groups.is_empty());
    assert_eq!(collisions, 0);
}

#[test]
fn unreadable_files_are_dropped() {
    let files = vec![file(0, "a", 2), file(1, "b", 2), file(2, "c", 2), file(3, "d", 2)];
    let refs: Vec<&FileEntry> = files.iter().collect();
    let digests = vec![digest(b"xy"), None, digest(b"xy"), None];
    let (groups, collisions) = Deduplicator::get_true_dupes(&refs, &digests);
    assert_eq!(names(&groups), vec![vec!["a", "c"]]);
    assert_eq!(collisions, 0);
}

#[test]
fn a_single_survivor_is_a_collision() {
    let files = vec![file(0, "a", 2), file(1, "b", 2)];
    let refs: Vec<&FileEntry> = files.iter().collect();
    let (groups, collisions) = Deduplicator::get_true_dupes(&refs, &vec![None, digest(b"xy")]);
    assert!(groups.is_empty());
    assert_eq!(collisions, 1);
    let (groups, collisions) = Deduplicator::get_true_dupes(&refs, &vec![None, None]);
    assert!(groups.is_empty());
    assert_eq!(collisions, 0);
}

#[test]
fn groups_stand_in_the_order_of_their_first_member() {
    let files: Vec<FileEntry> = (0..7).map(|i| file(i, &format!("f{i}"), 1)).collect();
    let refs: Vec<&FileEntry> = files.iter().collect();
    let digests = vec![
        digest(b"q"),
        digest(b"p"),
        digest(b"r"),
        digest(b"p"),
        digest(b"q"),
        digest(b"s"),
        digest(b"q"),
    ];
    let (groups, collisions) = Deduplicator::get_true_dupes(&refs, &digests);
    assert_eq!(names(&groups), vec![vec!["f0", "f4", "f6"], vec!["f1", "f3"]]);
    assert_eq!(collisions, 2);
}

#[test]
fn traversal_order_does_not_change_who_is_grouped() {
    let contents: [&[u8]; 6] = [b"one", b"two", b"one", b"six", b"two", b"one"];
    let files: Vec<FileEntry> = (0..6).map(|i| file(i, &format!("f{i}"), 3)).collect();
    let orders: [[usize; 6]; 4] =
        [[0, 1, 2, 3, 4, 5], [5, 4, 3, 2, 1, 0], [3, 0, 4, 2, 1, 5], [1, 2, 3, 4, 5, 0]];
    for order in orders {
        let refs: Vec<&FileEntry> = order.iter().map(|&i| &files[i]).collect();
        let digests: Vec<Option<Vec<u8>>> = order.iter().map(|&i| digest(contents[i])).collect();
        let (groups, collisions) = Deduplicator::get_true_dupes(&refs, &digests);
        let mut sets: Vec<Vec<usize>> = groups
            .iter()
            .map(|g| {
                let mut ids: Vec<usize> = g.iter().map(|e| e.id).collect();
                ids.sort();
                ids
            })
            .collect();
        sets.sort();
        assert_eq!(sets, vec![vec![0, 2, 5], vec![1, 4]]);
        assert_eq!(collisions, 1);
    }
}

#[test]
fn running_twice_gives_the_same_groups() {
    let files: Vec<FileEntry> = (0..5).map(|i| file(i, &format!("f{i}"), 4)).collect();
    let refs: Vec<&FileEntry> = files.iter().collect();
    let digests = vec![digest(b"aaaa"), digest(b"bbbb"), digest(b"aaaa"), None, digest(b"bbbb")];
    let (first, first_collisions) = Deduplicator::get_true_dupes(&refs, &digests);
    let (second, second_collisions) = Deduplicator::get_true_dupes(&refs, &digests);
    assert_eq!(names(&first), names(&second));
    assert_eq!(names(&first), vec![vec!["f0", "f2"], vec!["f1", "f4"]]);
    assert_eq!(first_collisions, second_collisions);
}

#[test]
fn positions_are_grouped_by_digest() {
    let digests = vec![Some(vec![1u8]), None, Some(vec![2u8]), Some(vec![1u8]), Some(vec![1u8, 0])];
    assert_eq!(group_positions(&digests), vec![vec![0, 3], vec![2], vec![4]]);
    assert_eq!(group_positions(&Vec::new()), Vec::<Vec<usize>>::new());
}

#[test]
fn bytes_equal_compares_every_byte() {
    assert!(bytes_equal(b"", b""));
    assert!(bytes_equal(b"abc", b"abc"));
    assert!(!bytes_equal(b"abc", b"abd"));
    assert!(!bytes_equal(b"abc", b"ab"));
    assert!(!bytes_equal(b"", b"a"));
}

#[test]
fn the_short_key_is_the_first_eight_bytes() {
    assert_eq!(short_key_of(&[]), 0);
    assert_eq!(short_key_of(&[0x01]), 0x01);
    assert_eq!(short_key_of(&[0x01, 0x02]), 0x0102);
    assert_eq!(short_key_of(&[1, 2, 3, 4, 5, 6, 7, 8]), 0x0102_0304_0506_0708);
    assert_eq!(short_key_of(&[0xff, 2, 3, 4, 5, 6, 7, 8, 9, 10]), 0xff02_0304_0506_0708);
}

#[test]
fn digests_that_begin_alike_are_told_apart() {
    let long = |tail: u8| Some(vec![7, 7, 7, 7, 7, 7, 7, 7, tail]);
    let digests = vec![long(1), long(2), long(1), Some(vec![0]), Some(vec![0, 0]), long(3), long(2), Some(vec![0])];
    assert_eq!(group_positions(&digests), vec![vec![0, 2], vec![1, 6], vec![3, 7], vec![4], vec![5]]);
}

#[test]
fn many_files_of_one_size_are_grouped() {
    let digests: Vec<Option<Vec<u8>>> =
        (0..3000u32).map(|i| if i % 7 == 0 { None } else { digest(&(i % 500).to_be_bytes()) }).collect();
    let classes = group_positions(&digests);
    let listed: usize = classes.iter().map(|c| c.len()).sum();
    assert_eq!(listed, digests.iter().filter(|d| d.is_some()).count());
    for class in &classes {
        assert!(class.windows(2).all(|w| w[0] < w[1]));
        assert!(class.iter().all(|&i| digests[i] == digests[class[0]]));
    }
    let heads: Vec<usize> = classes.iter().map(|c| c[0]).collect();
    assert!(heads.windows(2).all(|w| w[0] < w[1]));
    let mut distinct: Vec<&Vec<u8>> = digests.iter().flatten().collect();
    distinct.sort();
    distinct.dedup();
    assert_eq!(classes.len(), distinct.len());
}

#[test]
fn every_read_file_is_in_a_group_or_a_collision() {
    let digests: Vec<Option<Vec<u8>>> = (0..40u32)
        .map(|i| if i % 5 == 0 { None } else { digest(&[(i % 7) as u8, (i % 3 == 0) as u8]) })
        .collect();
    let files: Vec<FileEntry> = (0..40).map(|i| file(i, &format!("f{i}"), 2)).collect();
    let refs: Vec<&FileEntry> = files.iter().collect();
    let (groups, collisions) = Deduplicator::get_true_dupes(&refs, &digests);
    let in_groups: usize = groups.iter().map(|g| g.len()).sum();
    let read = digests.iter().filter(|d| d.is_some()).count();
    assert_eq!(read, 32);
    assert_eq!(in_groups + collisions, read);
    let mut seen: Vec<usize> = groups.iter().flatten().map(|e| e.id).collect();
    seen.sort();
    seen.dedup();
    assert_eq!(seen.len(), in_groups);
}

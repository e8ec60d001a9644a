use deduplicator::entry::FileEntry;
use deduplicator::options::{FileOrdering, Keep};
use deduplicator::selection::{find_without_key, select, MetadataMissing};

fn entry(id: usize, name: &str, modified: Option<i128>, created: Option<i128>) -> FileEntry {
    FileEntry {
        id,
        path: format!("/photos/{name}"),
        name: name.as_bytes().to_vec(),
        size: 1024,
        modified,
        created,
    }
}

fn ids(entries: &[&FileEntry]) -> Vec<usize> {
    entries.iter().map(|e| e.id).collect()
}

#[test]
fn keep_last_by_name_keeps_the_greatest_name() {
    let x = entry(0, "x.jpg", Some(30), Some(3));
    let y = entry(1, "y.jpg", Some(20), Some(2));
    let z = entry(2, "z.jpg", Some(10), Some(1));
    let group = vec![&x, &y, &z];
    let selection = select(&group, FileOrdering::Name, Keep::Last).unwrap();
    assert_eq!(selection.source.id, 2);
    assert_eq!(selection.source.path, "/photos/z.jpg");
    assert_eq!(ids(&selection.duplicates), vec![0, 1]);
}

#[test]
fn keep_first_by_name_keeps_the_least_name() {
    let z = entry(0, "z.jpg", Some(10), Some(1));
    let x = entry(1, "x.jpg", Some(30), Some(3));
    let y = entry(2, "y.jpg", Some(20), Some(2));
    let group = vec![&z, &x, &y];
    let selection = select(&group, FileOrdering::Name, Keep::First).unwrap();
    assert_eq!(selection.source.id, 1);
    assert_eq!(ids(&selection.duplicates), vec![2, 0]);
}

#[test]
fn keep_first_by_modified_keeps_the_oldest() {
    let x = entry(0, "x.jpg", Some(30), Some(3));
    let y = entry(1, "y.jpg", Some(20), Some(2));
    let z = entry(2, "z.jpg", Some(10), Some(1));
    let group = vec![&x, &y, &z];
    let selection = select(&group, FileOrdering::Modified, Keep::First).unwrap();
    assert_eq!(selection.source.id, 2);
    assert_eq!(ids(&selection.duplicates), vec![1, 0]);
}

#[test]
fn keep_last_by_created_keeps_the_youngest() {
    let x = entry(0, "x.jpg", Some(1), Some(-5));
    let y = entry(1, "y.jpg", Some(2), Some(700));
    let z = entry(2, "z.jpg", Some(3), Some(0));
    let group = vec![&x, &y, &z];
    let selection = select(&group, FileOrdering::Created, Keep::Last).unwrap();
    assert_eq!(selection.source.id, 1);
    assert_eq!(ids(&selection.duplicates), vec![0, 2]);
}

#[test]
fn equal_keys_stay_in_arrival_order() {
    let a = entry(0, "a", Some(5), Some(1));
    let b = entry(1, "b", Some(5), Some(1));
    let c = entry(2, "c", Some(1), Some(1));
    let d = entry(3, "d", Some(5), Some(1));
    let group = vec![&a, &b, &c, &d];
    let first = select(&group, FileOrdering::Modified, Keep::First).unwrap();
    assert_eq!(first.source.id, 2);
    assert_eq!(ids(&first.duplicates), vec![0, 1, 3]);
    let last = select(&group, FileOrdering::Modified, Keep::Last).unwrap();
    assert_eq!(last.source.id, 3);
    assert_eq!(ids(&last.duplicates), vec![2, 0, 1]);
    let all_tied = select(&group, FileOrdering::Created, Keep::First).unwrap();
    assert_eq!(all_tied.source.id, 0);
    assert_eq!(ids(&all_tied.duplicates), vec![1, 2, 3]);
}

#[test]
fn names_are_ordered_byte_by_byte() {
    let upper = entry(0, "Z.txt", Some(1), Some(1));
    let lower = entry(1, "a.txt", Some(1), Some(1));
    let prefix = entry(2, "a", Some(1), Some(1));
    let accent = entry(3, "\u{e9}.txt", Some(1), Some(1));
    let group = vec![&accent, &lower, &upper, &prefix];
    let selection = select(&group, FileOrdering::Name, Keep::First).unwrap();
    assert_eq!(selection.source.id, 0);
    assert_eq!(ids(&selection.duplicates), vec![2, 1, 3]);
}

#[test]
fn duplicates_are_one_fewer_than_the_group() {
    let entries: Vec<FileEntry> =
        (0..9).map(|i| entry(i, &format!("f{}", (i * 7) % 9), Some((i as i128 * 5) % 7), Some(0))).collect();
    let group: Vec<&FileEntry> = entries.iter().collect();
    for order in [FileOrdering::Modified, FileOrdering::Created, FileOrdering::Name] {
        for keep in [Keep::First, Keep::Last] {
            let selection = select(&group, order, keep).unwrap();
            assert_eq!(selection.duplicates.len(), group.len() - 1);
            let mut seen = ids(&selection.duplicates);
            seen.push(selection.source.id);
            seen.sort();
            assert_eq!(seen, (0..9).collect::<Vec<usize>>());
        }
    }
}

#[test]
fn source_has_the_extreme_key() {
    let entries: Vec<FileEntry> =
        (0..12).map(|i| entry(i, "n", Some(((i as i128) * 37) % 11 - 5), Some(0))).collect();
    let group: Vec<&FileEntry> = entries.iter().collect();
    let first = select(&group, FileOrdering::Modified, Keep::First).unwrap();
    assert!(group.iter().all(|e| first.source.modified <= e.modified));
    assert_eq!(first.source.modified, Some(-5));
    let last = select(&group, FileOrdering::Modified, Keep::Last).unwrap();
    assert!(group.iter().all(|e| e.modified <= last.source.modified));
    assert_eq!(last.source.modified, Some(5));
}

#[test]
fn a_group_of_one_has_no_duplicates() {
    let only = entry(7, "only", Some(1), None);
    let group = vec![&only];
    let selection = select(&group, FileOrdering::Modified, Keep::Last).unwrap();
    assert_eq!(selection.source.id, 7);
    assert!(selection.duplicates.is_empty());
}

#[test]
fn missing_timestamp_is_reported_with_its_position() {
    let x = entry(0, "x.jpg", Some(30), Some(3));
    let y = entry(1, "y.jpg", None, Some(2));
    let z = entry(2, "z.jpg", None, None);
    let group = vec![&x, &y, &z];
    let by_modified = select(&group, FileOrdering::Modified, Keep::First);
    assert_eq!(by_modified.unwrap_err(), MetadataMissing { position: 1 });
    let by_created = select(&group, FileOrdering::Created, Keep::Last);
    assert_eq!(by_created.unwrap_err(), MetadataMissing { position: 2 });
    assert!(select(&group, FileOrdering::Name, Keep::First).is_ok());
}

#[test]
fn find_without_key_finds_the_first_gap() {
    let x = entry(0, "x", Some(1), None);
    let y = entry(1, "y", None, None);
    let group = vec![&x, &y];
    assert_eq!(find_without_key(&group, FileOrdering::Modified), Some(1));
    assert_eq!(find_without_key(&group, FileOrdering::Created), Some(0));
    assert_eq!(find_without_key(&group, FileOrdering::Name), None);
    assert_eq!(find_without_key(&Vec::new(), FileOrdering::Modified), None);
}

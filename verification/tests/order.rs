use deduplicator::entry::FileEntry;
use deduplicator::options::FileOrdering;
use deduplicator::order::{bytes_less, key_less};
use deduplicator::sort::stable_order;

fn entry(name: &[u8], modified: i128, created: i128) -> FileEntry {
    FileEntry {
        id: 0,
        path: String::new(),
        name: name.to_vec(),
        size: 0,
        modified: Some(modified),
        created: Some(created),
    }
}

#[test]
fn bytes_less_is_lexicographic() {
    assert!(bytes_less(b"a", b"b"));
    assert!(!bytes_less(b"b", b"a"));
    assert!(bytes_less(b"", b"a"));
    assert!(!bytes_less(b"", b""));
    assert!(!bytes_less(b"abc", b"abc"));
    assert!(bytes_less(b"ab", b"abc"));
    assert!(!bytes_less(b"abc", b"ab"));
    assert!(bytes_less(b"abc", b"abd"));
    assert!(bytes_less(b"Zebra", b"apple"));
    assert!(bytes_less(&[0x7f], &[0x80]));
    assert!(bytes_less(&[1, 255], &[2, 0]));
}

#[test]
fn bytes_less_agrees_with_the_order_of_slices() {
    let samples: [&[u8]; 7] = [b"", b"a", b"ab", b"abc", b"abd", b"b", &[0xff, 0x00]];
    for a in samples {
        for b in samples {
            assert_eq!(bytes_less(a, b), a < b);
        }
    }
}

#[test]
fn key_less_reads_the_key_of_the_ordering() {
    let a = entry(b"b", 1, 9);
    let b = entry(b"a", 2, 9);
    assert!(key_less(FileOrdering::Modified, &a, &b));
    assert!(!key_less(FileOrdering::Modified, &b, &a));
    assert!(!key_less(FileOrdering::Created, &a, &b));
    assert!(!key_less(FileOrdering::Created, &b, &a));
    assert!(key_less(FileOrdering::Name, &b, &a));
    assert!(!key_less(FileOrdering::Name, &a, &b));
}

#[test]
fn stable_order_lists_positions_in_sorted_order() {
    let entries = vec![
        entry(b"d", 4, 0),
        entry(b"b", 2, 0),
        entry(b"a", 4, 0),
        entry(b"c", 1, 0),
        entry(b"e", 2, 0),
    ];
    let items: Vec<&FileEntry> = entries.iter().collect();
    assert_eq!(stable_order(&items, FileOrdering::Modified), vec![3, 1, 4, 0, 2]);
    assert_eq!(stable_order(&items, FileOrdering::Created), vec![0, 1, 2, 3, 4]);
    assert_eq!(stable_order(&items, FileOrdering::Name), vec![2, 1, 3, 0, 4]);
    assert_eq!(stable_order(&Vec::new(), FileOrdering::Name), Vec::<usize>::new());
}

#[test]
fn stable_order_matches_a_stable_sort_on_many_keys() {
    let entries: Vec<FileEntry> =
        (0..200).map(|i: i128| entry(b"n", (i * i * 31 + 7 * i) % 23, 0)).collect();
    let items: Vec<&FileEntry> = entries.iter().collect();
    let mut expected: Vec<usize> = (0..200).collect();
    expected.sort_by_key(|&i| entries[i].modified);
    assert_eq!(stable_order(&items, FileOrdering::Modified), expected);
}

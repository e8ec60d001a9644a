use deduplicator::entry::FileEntry;
use deduplicator::fingerprint::{Fingerprint, SimilarityScore};
use deduplicator::options::Options;
use deduplicator::similarity::{cluster_pairs, SimilarPair, Similarity, SimilarityGroup};
use itertools::Itertools;

fn image(id: usize, bits: &[u8]) -> Option<(Fingerprint, FileEntry)> {
    let entry = FileEntry {
        id,
        path: format!("/pictures/{id}.png"),
        name: format!("{id}.png").into_bytes(),
        size: 1,
        modified: None,
        created: None,
    };
    Some((Fingerprint::new(bits.to_vec()).unwrap(), entry))
}

fn engine(percent: u32) -> Similarity {
    let mut options = Options::new("/pictures".to_string(), 1);
    options.similarity_score = percent;
    Similarity::new(options)
}

/// A fingerprint of 160 bits of which the first `ones` are set.
fn bits(ones: usize) -> Vec<u8> {
    (0..20).map(|i| if i * 8 < ones { 0xff } else { 0x00 }).collect()
}

fn members(groups: &[SimilarityGroup]) -> Vec<Vec<usize>> {
    groups.iter().map(|g| g.members().clone()).collect()
}

fn pair(first: usize, second: usize, distance: u32) -> SimilarPair {
    SimilarPair { first, second, score: SimilarityScore { distance, bits: 64 } }
}

#[test]
fn close_images_are_grouped_and_a_distant_one_is_not() {
    let mut similarity = engine(90);
    let mut third = bits(0);
    for byte in third.iter_mut().skip(16) {
        *byte = 0xff;
    }
    let groups = similarity.execute(vec![image(0, &bits(0)), image(1, &bits(8)), image(2, &third)]);
    assert_eq!(similarity.files()[0].0.dist(&similarity.files()[1].0), 8);
    assert_eq!(similarity.files()[0].0.dist(&similarity.files()[2].0), 32);
    assert_eq!(similarity.files()[1].0.dist(&similarity.files()[2].0), 40);
    assert_eq!(members(&groups), vec![vec![0, 1]]);
    assert_eq!(groups[0].score(), SimilarityScore { distance: 8, bits: 160 });
}

#[test]
fn the_threshold_decides_which_pairs_count() {
    let results = || vec![image(0, &bits(0)), image(1, &bits(8)), image(2, &bits(40))];
    assert_eq!(members(&engine(95).execute(results())), vec![vec![0, 1]]);
    assert_eq!(members(&engine(96).execute(results())), Vec::<Vec<usize>>::new());
    assert_eq!(members(&engine(80).execute(results())), vec![vec![0, 1, 2]]);
    assert_eq!(members(&engine(75).execute(results())), vec![vec![0, 1, 2]]);
    assert_eq!(members(&engine(0).execute(results())), vec![vec![0, 1, 2]]);
    assert_eq!(members(&engine(101).execute(results())), Vec::<Vec<usize>>::new());
}

#[test]
fn pairs_are_found_in_ascending_order() {
    let mut similarity = engine(0);
    similarity.consume(vec![image(0, &[0]), None, image(1, &[1]), image(2, &[3]), image(3, &[7])]);
    let pairs: Vec<(usize, usize, u32)> =
        similarity.similar_pairs().iter().map(|p| (p.first, p.second, p.score.distance)).collect();
    assert_eq!(pairs, vec![(0, 1, 1), (0, 2, 2), (0, 3, 3), (1, 2, 1), (1, 3, 2), (2, 3, 1)]);
    assert!(similarity.similar_pairs().iter().all(|p| p.score.bits == 8));
}

#[test]
fn only_pairs_that_reach_the_threshold_are_kept() {
    let mut similarity = engine(75);
    similarity.consume(vec![image(0, &[0]), image(1, &[1]), image(2, &[3]), image(3, &[7])]);
    let pairs: Vec<(usize, usize)> = similarity.similar_pairs().iter().map(|p| (p.first, p.second)).collect();
    assert_eq!(pairs, vec![(0, 1), (0, 2), (1, 2), (1, 3), (2, 3)]);
}

#[test]
fn files_that_are_no_images_are_dropped() {
    let mut similarity = engine(100);
    similarity.consume(vec![None, image(4, &[1]), None, None, image(9, &[1])]);
    similarity.consume(vec![image(2, &[1]), None]);
    let ids: Vec<usize> = similarity.files().iter().map(|(_, entry)| entry.id).collect();
    assert_eq!(ids, vec![4, 9, 2]);
    let groups = similarity.collect();
    assert_eq!(members(&groups), vec![vec![0, 1, 2]]);
    assert_eq!(groups[0].score(), SimilarityScore { distance: 0, bits: 8 });
}

#[test]
fn no_images_give_no_groups() {
    assert!(engine(50).collect().is_empty());
    assert!(engine(50).execute(vec![None, None]).is_empty());
    assert!(engine(50).execute(vec![image(0, &[1])]).is_empty());
}

#[test]
fn a_pair_joins_the_group_of_its_first_file() {
    let groups = cluster_pairs(&vec![pair(0, 1, 3), pair(2, 3, 4), pair(1, 3, 5)]);
    assert_eq!(members(&groups), vec![vec![0, 1, 3], vec![2, 3]]);
    assert_eq!(groups[0].score().distance, 3);
    assert_eq!(groups[1].score().distance, 4);
}

#[test]
fn a_pair_joins_the_group_of_its_second_file_when_the_first_has_none() {
    let groups = cluster_pairs(&vec![pair(1, 2, 1), pair(0, 2, 2), pair(0, 5, 3)]);
    assert_eq!(members(&groups), vec![vec![1, 2, 0, 5]]);
    assert_eq!(groups[0].score().distance, 1);
}

#[test]
fn groups_are_never_merged() {
    let groups = cluster_pairs(&vec![pair(0, 1, 1), pair(2, 3, 2), pair(0, 2, 3), pair(3, 4, 4)]);
    assert_eq!(members(&groups), vec![vec![0, 1, 2], vec![2, 3, 4]]);
}

#[test]
fn a_file_is_reassigned_to_the_group_it_joined_last() {
    let groups = cluster_pairs(&vec![pair(0, 4, 1), pair(2, 3, 1), pair(2, 4, 1), pair(4, 5, 1)]);
    assert_eq!(members(&groups), vec![vec![0, 4], vec![2, 3, 4, 5]]);
}

#[test]
fn a_member_is_listed_once() {
    let groups = cluster_pairs(&vec![pair(0, 1, 1), pair(0, 1, 2), pair(1, 0, 3), pair(0, 2, 4)]);
    assert_eq!(members(&groups), vec![vec![0, 1, 2]]);
    assert_eq!(groups[0].score().distance, 1);
    assert!(cluster_pairs(&Vec::new()).is_empty());
}

#[test]
fn a_chain_of_near_duplicates_ends_in_one_group() {
    let results: Vec<Option<(Fingerprint, FileEntry)>> =
        (0..5).map(|i| image(i, &bits(8 * i))).collect();
    let groups = engine(95).execute(results);
    assert_eq!(members(&groups), vec![vec![0, 1, 2, 3, 4]]);
}

#[test]
fn pairs_come_in_the_order_of_tuple_combinations() {
    for n in 0..9usize {
        let mut similarity = engine(0);
        similarity.consume((0..n).map(|i| image(i, &[i as u8])).collect());
        let found: Vec<(usize, usize)> =
            similarity.similar_pairs().iter().map(|p| (p.first, p.second)).collect();
        let expected: Vec<(usize, usize)> = (0..n).tuple_combinations().collect();
        assert_eq!(found, expected);
    }
}

#[test]
fn every_pair_is_compared_once() {
    let mut similarity = engine(0);
    similarity.consume((0..40).map(|i| image(i, &[(i * 29 % 256) as u8, (i * 3) as u8])).collect());
    let pairs = similarity.similar_pairs();
    assert_eq!(pairs.len(), 40 * 39 / 2);
    assert!(pairs.iter().all(|p| p.first < p.second && p.second < 40));
    for pair in &pairs {
        let files = similarity.files();
        assert_eq!(pair.score, files[pair.first].0.similarity(&files[pair.second].0));
    }
}

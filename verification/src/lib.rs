//! Duplicate and near-duplicate file detection.
//!
//! The library holds the decision logic of a file deduplicator. It never
//! reads the file system: the caller scans, and hands the library plain
//! values.
//!
//! Exact duplicates are found in two stages. A [`deduplicator::Deduplicator`]
//! first buckets the scanned files by size. Only the files of a bucket with
//! more than one member can have duplicates, so only their content is
//! digested, with a [`digest::ContentHasher`]. From the digests the engine
//! forms the duplicate groups, and the [`selection`] policy splits each
//! group into the member to keep and the duplicates.
//!
//! Similar images are found by a [`similarity::Similarity`] engine, which
//! compares the perceptual [`fingerprint`]s of every pair of images and
//! clusters the pairs that are alike enough.
//!
//! What a second run over an unchanged tree yields, in whatever order the
//! files arrive, is stated in [`rerun`].

pub mod deduplicator;
pub mod digest;
pub mod duplicates;
pub mod entry;
pub mod fingerprint;
pub mod grouping;
pub mod options;
pub mod order;
pub mod perceptual;
pub mod report;
pub mod rerun;
pub mod selection;
pub mod similarity;
pub mod sort;

//! Run configuration.

use vstd::prelude::*;

verus! {

/// The key by which the members of a duplicate group are ordered.
#[derive(Debug, Clone, Copy, PartialEq, Eq, Structural)]
pub enum FileOrdering {
    Modified,
    Created,
    Name,
}

/// Which end of the ordered group is retained as the source.
#[derive(Debug, Clone, Copy, PartialEq, Eq, Structural)]
pub enum Keep {
    First,
    Last,
}

/// The criterion by which files are matched.
#[derive(Debug, Clone, Copy, PartialEq, Eq, Structural)]
pub enum Mode {
    Hash,
    Similarity,
}

/// Why a configuration is rejected.
#[derive(Debug, Clone, Copy, PartialEq, Eq, Structural)]
pub enum OptionsError {
    /// The worker pool would have no thread.
    NoThreads,
    /// The similarity threshold is above 100 percent.
    ScoreOutOfRange,
}

/// Everything a run is configured with.
#[derive(Debug, Clone)]
pub struct Options {
    /// Root of the scan.
    pub path: String,
    pub keep: Keep,
    pub order: FileOrdering,
    /// Whether the duplicates of each group are removed.
    pub delete: bool,
    /// Suppresses the per-group report, not the summary.
    pub quiet: bool,
    /// Size of the worker pool.
    pub threads: usize,
    /// Limits the traversal to the root's direct children.
    pub no_recursive: bool,
    pub no_summary: bool,
    /// Reports traversal and decoding failures instead of dropping them silently.
    pub no_ignore_errors: bool,
    /// The key by which the emitted groups are ordered, if any.
    pub sort_output: Option<FileOrdering>,
    pub mode: Mode,
    /// Required similarity in percent, 100 meaning identical fingerprints.
    pub similarity_score: u32,
}

impl Options {
    /// A configuration is valid when it has at least one worker thread and a
    /// similarity threshold of at most 100 percent.
    pub open spec fn valid(&self) -> bool {
        self.threads >= 1 && self.similarity_score <= 100
    }

    /// The configuration for `path` with every other setting at its default.
    pub fn new(path: String, threads: usize) -> (options: Options)
        ensures
            options.path == path,
            options.keep == Keep::First,
            options.order == FileOrdering::Modified,
            !options.delete,
            !options.quiet,
            options.threads == threads,
            !options.no_recursive,
            !options.no_summary,
            !options.no_ignore_errors,
            options.sort_output.is_none(),
            options.mode == Mode::Hash,
            options.similarity_score == 95,
    {
        Options {
            path,
            keep: Keep::First,
            order: FileOrdering::Modified,
            delete: false,
            quiet: false,
            threads,
            no_recursive: false,
            no_summary: false,
            no_ignore_errors: false,
            sort_output: None,
            mode: Mode::Hash,
            similarity_score: 95,
        }
    }

    /// Rejects a configuration that no run can use. A missing worker thread
    /// is reported before a threshold that is out of range.
    pub fn validate(&self) -> (result: Result<(), OptionsError>)
        ensures
            result.is_ok() <==> self.valid(),
            result == Err::<(), OptionsError>(OptionsError::NoThreads) <==> self.threads == 0,
            result == Err::<(), OptionsError>(OptionsError::ScoreOutOfRange) <==> self.threads >= 1
                && self.similarity_score > 100,
    {
        if self.threads == 0 {
            Err(OptionsError::NoThreads)
        } else if self.similarity_score > 100 {
            Err(OptionsError::ScoreOutOfRange)
        } else {
            Ok(())
        }
    }

    /// How deep the traversal descends below the root: one level when
    /// recursion is switched off, without bound otherwise.
    pub fn max_depth(&self) -> (depth: usize)
        ensures
            depth == if self.no_recursive { 1usize } else { usize::MAX },
    {
        if self.no_recursive {
            1
        } else {
            usize::MAX
        }
    }
}

} // verus!

use deduplicator::options::{FileOrdering, Keep, Mode, Options, OptionsError};

#[test]
fn new_options_have_the_defaults() {
    let options = Options::new("/scan".to_string(), 8);
    assert_eq!(options.path, "/scan");
    assert_eq!(options.keep, Keep::First);
    assert_eq!(options.order, FileOrdering::Modified);
    assert!(!options.delete);
    assert!(!options.quiet);
    assert_eq!(options.threads, 8);
    assert!(!options.no_recursive);
    assert!(!options.no_summary);
    assert!(!options.no_ignore_errors);
    assert_eq!(options.sort_output, None);
    assert_eq!(options.mode, Mode::Hash);
    assert_eq!(options.similarity_score, 95);
    assert_eq!(options.validate(), Ok(()));
}

#[test]
fn a_run_needs_a_thread() {
    let options = Options::new("/scan".to_string(), 0);
    assert_eq!(options.validate(), Err(OptionsError::NoThreads));
    let mut both = Options::new("/scan".to_string(), 0);
    both.similarity_score = 500;
    assert_eq!(both.validate(), Err(OptionsError::NoThreads));
}

#[test]
fn the_threshold_is_a_percentage() {
    let mut options = Options::new("/scan".to_string(), 1);
    options.similarity_score = 100;
    assert_eq!(options.validate(), Ok(()));
    options.similarity_score = 0;
    assert_eq!(options.validate(), Ok(()));
    options.similarity_score = 101;
    assert_eq!(options.validate(), Err(OptionsError::ScoreOutOfRange));
}

#[test]
fn recursion_decides_the_depth() {
    let mut options = Options::new("/scan".to_string(), 1);
    assert_eq!(options.max_depth(), usize::MAX);
    options.no_recursive = true;
    assert_eq!(options.max_depth(), 1);
}

use bestof::duration_text::human_readable_duration;
use bestof::flags::{parse_sort_flag, FetchError, UsageError};
use bestof::order::Sort;

#[test]
fn no_flag_defaults_to_reactions() {
    assert_eq!(parse_sort_flag(None), Ok(Sort::ByReactions));
}

#[test]
fn each_flag_selects_its_metric() {
    let score = String::from("--sort-by-score");
    let reactions = String::from("--sort-by-reactions");
    let throughput = String::from("--sort-by-reactions-throughput");
    assert_eq!(parse_sort_flag(Some(&score)), Ok(Sort::ByScore));
    assert_eq!(parse_sort_flag(Some(&reactions)), Ok(Sort::ByReactions));
    assert_eq!(parse_sort_flag(Some(&throughput)), Ok(Sort::ByReactionsThroughput));
}

#[test]
fn unknown_flag_is_a_usage_error() {
    let bogus = String::from("--sort-by-luck");
    assert_eq!(parse_sort_flag(Some(&bogus)), Err(UsageError));
    let empty = String::new();
    assert_eq!(parse_sort_flag(Some(&empty)), Err(UsageError));
}

#[test]
fn fetch_errors_distinguish_auth_from_transport() {
    assert_ne!(FetchError::Auth, FetchError::Transport);
}

#[test]
fn duration_text_keeps_first_two_words() {
    // 9000 seconds render as "2h 30m 0s 0ms"; the report shows the
    // first two words, trailing space kept.
    assert_eq!(human_readable_duration(9000), "2h 30m ");
    assert_eq!(human_readable_duration(3666), "1h 1m ");
    assert_eq!(human_readable_duration(45_000_000), "1y 5mon ");
}

#[test]
fn duration_text_of_short_spans_stays_whole() {
    // "30s 0ms" has only one space, "0ms" none: nothing is cut.
    assert_eq!(human_readable_duration(30), "30s 0ms");
    assert_eq!(human_readable_duration(0), "0ms");
}
